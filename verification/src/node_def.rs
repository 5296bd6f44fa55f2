use vstd::prelude::*;
use crate::node_value::{NodeValue, NodeValueType};

verus! {

/// Human-readable information about a node or its inputs or outputs.
#[derive(Debug, PartialEq)]
pub struct NodeDefBasicDescription {
    pub name: String,
    pub description: String,
}

/// Represents a single input to a `NodeDef` function.
#[derive(Debug, PartialEq)]
pub struct NodeInputDef {
    pub desc: NodeDefBasicDescription,
    pub allowed_types: Vec<NodeValueType>,
    pub required: bool,
}

/// Represents a single output of a `NodeDef` function.
#[derive(Debug, PartialEq)]
pub struct NodeOutputDef {
    pub desc: NodeDefBasicDescription,
    pub output_type: NodeValueType,
}

/// Information about an output device.
#[derive(Debug, PartialEq)]
pub struct OutputDevice {
    pub name: String,
}

/// A stateless operation: from the ordered input values to the ordered output values.
/// The engine may call it from any worker thread, and hands every produced value on as it is.
pub trait NodeFunction: Send + Sync {
    fn run(&self, inputs: Vec<&NodeValue>) -> Vec<NodeValue>;
}

/// A side-effecting sink: it receives the ordered input values and produces nothing.
pub trait NodeOutputFunction: Send + Sync {
    fn run(&self, inputs: Vec<&NodeValue>);
}

/// The stateful runtime object of a node. It is prepared once per preparation of its graph,
/// with the mask of its outputs that some wire consumes, and executed once per evaluation.
pub trait NodeExecutor: Send + Sync {
    fn prepare(&self, enabled_outputs: &Vec<bool>);
    fn execute(&self, inputs: Vec<&NodeValue>) -> Vec<NodeValue>;
}

/// An executor as its factory hands it over.
pub struct BoxedExecutor(pub Box<dyn NodeExecutor>);

/// Builds the executor of one node, anew for each preparation of the node's graph.
pub trait NodeExecutorFactory: Send + Sync {
    fn create(&self) -> BoxedExecutor;
}

/// Whether `outputs` is something that the function can return when it is run on
/// `inputs`.
pub open spec fn function_returns<F: NodeFunction + ?Sized>(
    function: &F,
    inputs: Vec<&NodeValue>,
    outputs: Vec<NodeValue>,
) -> bool {
    call_ensures(F::run, (function, inputs), outputs)
}

/// Whether the output function can be run on `inputs`, and come back.
pub open spec fn output_function_takes<F: NodeOutputFunction + ?Sized>(
    function: &F,
    inputs: Vec<&NodeValue>,
) -> bool {
    call_ensures(F::run, (function, inputs), ())
}

/// Whether the executor can be prepared with this mask, and come back.
pub open spec fn executor_prepared<E: NodeExecutor + ?Sized>(
    executor: &E,
    enabled_outputs: &Vec<bool>,
) -> bool {
    call_ensures(E::prepare, (executor, enabled_outputs), ())
}

/// Whether `outputs` is something that the executor can return when it executes on
/// `inputs`.
pub open spec fn executor_returns<E: NodeExecutor + ?Sized>(
    executor: &E,
    inputs: Vec<&NodeValue>,
    outputs: Vec<NodeValue>,
) -> bool {
    call_ensures(E::execute, (executor, inputs), outputs)
}

/// Whether `executor` is something that the factory can create.
pub open spec fn factory_creates<F: NodeExecutorFactory + ?Sized>(
    factory: &F,
    executor: BoxedExecutor,
) -> bool {
    call_ensures(F::create, (factory,), executor)
}

/// Runs a function on some inputs.
pub fn run_function<F: NodeFunction + ?Sized>(function: &F, inputs: Vec<&NodeValue>) -> (outputs:
    Vec<NodeValue>)
    ensures
        function_returns(function, inputs, outputs),
{
    function.run(inputs)
}

/// Runs an output function on some inputs.
pub fn run_output_function<F: NodeOutputFunction + ?Sized>(function: &F, inputs: Vec<&NodeValue>)
    ensures
        output_function_takes(function, inputs),
{
    function.run(inputs)
}

/// Prepares an executor with a mask of outputs in use.
pub fn prepare_executor<E: NodeExecutor + ?Sized>(executor: &E, enabled_outputs: &Vec<bool>)
    ensures
        executor_prepared(executor, enabled_outputs),
{
    executor.prepare(enabled_outputs)
}

/// Executes an executor on some inputs.
pub fn run_executor<E: NodeExecutor + ?Sized>(executor: &E, inputs: Vec<&NodeValue>) -> (outputs:
    Vec<NodeValue>)
    ensures
        executor_returns(executor, inputs, outputs),
{
    executor.execute(inputs)
}

/// Has a factory create an executor.
pub fn create_executor<F: NodeExecutorFactory + ?Sized>(factory: &F) -> (executor: BoxedExecutor)
    ensures
        factory_creates(factory, executor),
{
    factory.create()
}

/// How an output device is run, and which device it is.
pub struct NodeDefOutputRunner {
    pub run: Box<dyn NodeOutputFunction>,
    pub device: OutputDevice,
}

/// Options for executing a node, as specified in a `NodeDef`.
pub enum NodeDefRunner {
    Function(Box<dyn NodeFunction>),
    Executor(Box<dyn NodeExecutorFactory>),
    OutputDevice(NodeDefOutputRunner),
}

impl PartialEq for NodeDefRunner {
    /// Runners cannot be told apart, so any two count as equal: two definitions are equal
    /// when they declare the same.
    fn eq(&self, other: &Self) -> (equal: bool) {
        true
    }
}

impl vstd::std_specs::cmp::PartialEqSpecImpl for NodeDefRunner {
    open spec fn obeys_eq_spec() -> bool {
        true
    }

    open spec fn eq_spec(&self, other: &Self) -> bool {
        true
    }
}

/// A `NodeDef` represents a type of function that can be called in an evaluation graph.
/// These functions have a name and defined input and output types, and may have several
/// outputs.
#[derive(PartialEq)]
pub struct NodeDef {
    pub desc: NodeDefBasicDescription,
    pub inputs: Vec<NodeInputDef>,
    pub outputs: Vec<NodeOutputDef>,
    pub runner: NodeDefRunner,
}

impl NodeDef {
    /// Whether `outputs` is something that one run of this definition on `inputs` can
    /// return. A function returns what it makes of the inputs, and so does the executor
    /// of a definition that runs by one. An output device takes the inputs and returns
    /// nothing.
    pub open spec fn yields(
        &self,
        executor: Option<Box<dyn NodeExecutor>>,
        inputs: Vec<&NodeValue>,
        outputs: Vec<NodeValue>,
    ) -> bool {
        match self.runner {
            NodeDefRunner::Function(function) => function_returns::<dyn NodeFunction>(
                &*function,
                inputs,
                outputs,
            ),
            NodeDefRunner::Executor(_) => executor matches Some(bound) && executor_returns::<
                dyn NodeExecutor,
            >(&*bound, inputs, outputs),
            NodeDefRunner::OutputDevice(output) => output_function_takes::<dyn NodeOutputFunction>(
                &*output.run,
                inputs,
            ) && outputs@.len() == 0,
        }
    }

    /// Whether `executor` is what binding a node of this definition can give, when the
    /// node's mask of outputs in use is `enabled_outputs`. A definition that runs by an
    /// executor has its factory create one, and the executor is prepared with the mask.
    /// Any other definition has no executor.
    pub open spec fn binds(
        &self,
        enabled_outputs: Vec<bool>,
        executor: Option<Box<dyn NodeExecutor>>,
    ) -> bool {
        match self.runner {
            NodeDefRunner::Executor(factory) => executor matches Some(bound) && (exists|
                made: BoxedExecutor,
            | #[trigger]
                factory_creates::<dyn NodeExecutorFactory>(&*factory, made) && made.0 == bound)
                && executor_prepared::<dyn NodeExecutor>(&*bound, &enabled_outputs),
            _ => executor is None,
        }
    }

    /// Runs this definition once on the given input values. A function is called with
    /// them, an executor is asked to execute on them, and an output device receives them
    /// and produces nothing.
    pub fn run(&self, executor: &Option<Box<dyn NodeExecutor>>, inputs: Vec<&NodeValue>) -> (outputs:
        Vec<NodeValue>)
        requires
            self.runner is Executor ==> executor is Some,
        ensures
            self.yields(*executor, inputs, outputs),
    {
        match &self.runner {
            NodeDefRunner::Function(function) => run_function::<dyn NodeFunction>(
                &**function,
                inputs,
            ),
            NodeDefRunner::Executor(_) => run_executor::<dyn NodeExecutor>(
                &**executor.as_ref().unwrap(),
                inputs,
            ),
            NodeDefRunner::OutputDevice(output) => {
                run_output_function::<dyn NodeOutputFunction>(&*output.run, inputs);
                Vec::new()
            },
        }
    }
}

} // verus!
