use vstd::prelude::*;
use crate::node_def::{
    create_executor, prepare_executor, NodeDef, NodeDefRunner, NodeExecutor, NodeExecutorFactory,
};
use crate::node_def_registry::NodeDefRegistry;
use crate::node_value::NodeValue;
use crate::result_store::ResultStore;
pub use crate::result_store::NodeOutputRef;

verus! {

/// One input of a node: a constant, or a wire to an output of another node.
#[derive(Debug, PartialEq, Clone)]
pub enum NodeInput {
    Const(NodeValue),
    Wire(NodeOutputRef),
}

/// Instance of an executable function as represented in a compute graph.
/// Each node has a type (a `NodeDef`) that defines what inputs to take, what outputs
/// to provide, and how to execute. Each node can attach to other nodes to drive its
/// inputs and outputs.
#[derive(Debug, Clone)]
pub struct Node {
    pub id: u32,
    pub def_name: String,
    /// Order of inputs must match order in the `NodeDef`.
    pub inputs: Vec<NodeInput>,
}

/// A node together with the registry that holds its definition.
pub struct NodeWithRegistry<'a> {
    node: &'a Node,
    registry: &'a NodeDefRegistry,
}

/// Whether every wire among these inputs has its value in the store.
pub open spec fn inputs_available(
    inputs: Seq<NodeInput>,
    store: Map<NodeOutputRef, NodeValue>,
) -> bool {
    forall|i: int|
        0 <= i < inputs.len() ==> (#[trigger] inputs[i] matches NodeInput::Wire(output)
            ==> store.contains_key(output))
}

/// The value that an input stands for: the constant itself, or what the store holds for
/// the wire.
pub open spec fn input_value(input: NodeInput, store: Map<NodeOutputRef, NodeValue>) -> NodeValue {
    match input {
        NodeInput::Const(value) => value,
        NodeInput::Wire(output) => store[output],
    }
}

/// Whether `values` are the values that some inputs stand for on `store`, in the order of
/// the inputs.
pub open spec fn inputs_handed(
    inputs: Seq<NodeInput>,
    store: Map<NodeOutputRef, NodeValue>,
    values: Vec<&NodeValue>,
) -> bool {
    &&& values@.len() == inputs.len()
    &&& forall|i: int|
        0 <= i < values@.len() ==> *#[trigger] values@[i] == input_value(inputs[i], store)
}

/// Whether `outputs` is something that evaluating a node on `store` can return: something
/// that one run of the node's definition can return for the values that the node's inputs
/// stand for.
pub open spec fn evaluates_to(
    node: Node,
    def: NodeDef,
    executor: Option<Box<dyn NodeExecutor>>,
    store: Map<NodeOutputRef, NodeValue>,
    outputs: Vec<NodeValue>,
) -> bool {
    exists|values: Vec<&NodeValue>|
        inputs_handed(node.inputs@, store, values) && #[trigger] def.yields(
            executor,
            values,
            outputs,
        )
}

impl Node {
    /// Most node functionality can only be processed using a `NodeDefRegistry`,
    /// which gives the node access to the underlying implementation of its
    /// definition. This method allows the registry to be passed in once instead
    /// of requiring it as an argument for every single function.
    pub fn with_registry<'a>(&'a self, registry: &'a NodeDefRegistry) -> (bound: NodeWithRegistry<
        'a,
    >)
        ensures
            bound.node() == *self,
            bound.registry() == *registry,
    {
        NodeWithRegistry { node: self, registry: registry }
    }

    /// The first wire among the inputs whose value the store lacks.
    pub fn missing_input(&self, store: &ResultStore) -> (missing: Option<NodeOutputRef>)
        ensures
            match missing {
                Some(output) => exists|i: int|
                    0 <= i < self.inputs@.len() && self.inputs@[i] == NodeInput::Wire(output)
                        && !store@.contains_key(output) && inputs_available(
                        self.inputs@.take(i),
                        store@,
                    ),
                None => inputs_available(self.inputs@, store@),
            },
    {
        let mut i: usize = 0;
        while i < self.inputs.len()
            invariant
                i <= self.inputs.len(),
                inputs_available(self.inputs@.take(i as int), store@),
            decreases self.inputs.len() - i,
        {
            match &self.inputs[i] {
                NodeInput::Const(_) => {},
                NodeInput::Wire(output) => {
                    if !store.contains(output) {
                        return Some(*output);
                    }
                },
            }
            assert forall|j: int| 0 <= j < i + 1 implies (#[trigger] self.inputs@.take(
                i + 1,
            )[j] matches NodeInput::Wire(output) ==> store@.contains_key(output)) by {
                if j < i {
                    assert(self.inputs@.take(i as int)[j] == self.inputs@[j]);
                }
            }
            i += 1;
        }
        assert(self.inputs@.take(self.inputs.len() as int) =~= self.inputs@);
        None
    }

    /// The values that the inputs stand for, in the order of the inputs.
    pub fn input_values<'a>(&'a self, store: &'a ResultStore) -> (values: Vec<&'a NodeValue>)
        requires
            inputs_available(self.inputs@, store@),
        ensures
            inputs_handed(self.inputs@, store@, values),
    {
        let mut values: Vec<&NodeValue> = Vec::with_capacity(self.inputs.len());
        let mut i: usize = 0;
        while i < self.inputs.len()
            invariant
                i <= self.inputs.len(),
                inputs_available(self.inputs@, store@),
                values@.len() == i,
                forall|j: int|
                    0 <= j < i ==> *#[trigger] values@[j] == input_value(self.inputs@[j], store@),
            decreases self.inputs.len() - i,
        {
            let value = match &self.inputs[i] {
                NodeInput::Const(value) => value,
                NodeInput::Wire(output) => {
                    assert(self.inputs@[i as int] matches NodeInput::Wire(o) ==> store@.contains_key(o));
                    store.get(output).unwrap()
                },
            };
            values.push(value);
            i += 1;
        }
        values
    }
}

impl<'a> NodeWithRegistry<'a> {
    /// The node.
    pub closed spec fn node(&self) -> Node {
        *self.node
    }

    /// The registry.
    pub closed spec fn registry(&self) -> NodeDefRegistry {
        *self.registry
    }

    /// Whether the registry is sound and holds the definition that the node names.
    pub open spec fn def_known(&self) -> bool {
        self.registry().wf() && self.registry()@.contains_key(self.node().def_name@)
    }

    /// The definition that the node names.
    pub open spec fn def(&self) -> NodeDef {
        self.registry()@[self.node().def_name@]
    }

    pub fn get_input_count(&self) -> (count: usize)
        requires
            self.def_known(),
        ensures
            count == self.def().inputs@.len(),
    {
        self.registry.get_def(&self.node.def_name).inputs.len()
    }

    pub fn get_output_count(&self) -> (count: usize)
        requires
            self.def_known(),
        ensures
            count == self.def().outputs@.len(),
    {
        self.registry.get_def(&self.node.def_name).outputs.len()
    }

    /// Builds the executor of the node, where its definition runs by one, and prepares it
    /// with the mask of the outputs in use. A node of any other definition has none.
    pub fn prepare(&self, enabled_outputs: &Vec<bool>) -> (executor: Option<Box<dyn NodeExecutor>>)
        requires
            self.def_known(),
        ensures
            self.def().binds(*enabled_outputs, executor),
    {
        let def = self.registry.get_def(&self.node.def_name);
        match &def.runner {
            NodeDefRunner::Executor(factory) => {
                let made = create_executor::<dyn NodeExecutorFactory>(&**factory);
                prepare_executor::<dyn NodeExecutor>(&*made.0, enabled_outputs);
                let bound = Some(made.0);
                assert(bound->0 == made.0);
                bound
            },
            _ => None,
        }
    }

    /// Evaluates the node: reads the value of each input, a wire's from the outputs
    /// evaluated so far, and runs the definition on them.
    pub fn evaluate(
        &self,
        evaluated_outputs: &ResultStore,
        executor: &Option<Box<dyn NodeExecutor>>,
    ) -> (outputs: Vec<NodeValue>)
        requires
            self.def_known(),
            inputs_available(self.node().inputs@, evaluated_outputs@),
            self.def().runner is Executor ==> executor is Some,
        ensures
            evaluates_to(self.node(), self.def(), *executor, evaluated_outputs@, outputs),
    {
        let input_vals = self.node.input_values(evaluated_outputs);
        let def = self.registry.get_def(&self.node.def_name);
        def.run(executor, input_vals)
    }
}

} // verus!
