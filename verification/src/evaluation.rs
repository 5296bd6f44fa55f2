use vstd::prelude::*;
use crate::graph_model::{
    def_of, graph_deps, is_output_device, is_result_of, keeps_output_count, lemma_wire_refs,
    outputs_as_declared, produced_values, wire_refs, wire_sources,
};
use crate::layering::{is_layering, placed_before};
use crate::node::{inputs_handed, Node, NodeInput};
use crate::node_def::{NodeDef, NodeExecutor};
use crate::node_value::NodeValue;
use crate::compute_graph::{ComputeGraph, ComputeGraphState, GraphError};
use crate::result_store::{stored_outputs, NodeOutputRef, ResultStore};

verus! {

/// Whether two lists of values are as long as each other and hold the same at each place.
pub open spec fn same_values(first: Seq<NodeValue>, second: Seq<NodeValue>) -> bool {
    &&& first.len() == second.len()
    &&& forall|i: int| 0 <= i < first.len() ==> (#[trigger] first[i]).same_as(&second[i])
}

/// Whether two stores hold values for the same outputs, and the same value for each.
pub open spec fn same_stores(
    first: Map<NodeOutputRef, NodeValue>,
    second: Map<NodeOutputRef, NodeValue>,
) -> bool {
    &&& first.dom() == second.dom()
    &&& forall|output: NodeOutputRef|
        first.contains_key(output) ==> (#[trigger] first[output]).same_as(&second[output])
}

/// The values that a list of handed inputs refers to.
pub open spec fn values_of(inputs: Vec<&NodeValue>) -> Seq<NodeValue> {
    Seq::new(inputs@.len(), |i: int| *inputs@[i])
}

/// Whether what a definition returns is a function of the values handed to it: two runs
/// on the same values, by the one executor or by the other, return the same values.
pub open spec fn is_deterministic(
    def: NodeDef,
    first_executor: Option<Box<dyn NodeExecutor>>,
    second_executor: Option<Box<dyn NodeExecutor>>,
) -> bool {
    forall|
        first_inputs: Vec<&NodeValue>,
        second_inputs: Vec<&NodeValue>,
        first_outputs: Vec<NodeValue>,
        second_outputs: Vec<NodeValue>,
    |
        same_values(values_of(first_inputs), values_of(second_inputs)) && #[trigger] def.yields(
            first_executor,
            first_inputs,
            first_outputs,
        ) && #[trigger] def.yields(second_executor, second_inputs, second_outputs) ==> same_values(
            first_outputs@,
            second_outputs@,
        )
}

/// Invalidation: `set_node` and `remove_node` leave a graph unprepared, and whatever
/// `execute` returns on a graph that is not ready is the error that says so.
pub proof fn lemma_invalidation(graph: &ComputeGraph, result: Result<ResultStore, GraphError>)
    requires
        graph.wf(),
        graph.state() != ComputeGraphState::Ready,
        call_ensures(ComputeGraph::execute, (graph,), result),
    ensures
        result == Err::<ResultStore, GraphError>(GraphError::PreconditionNotReady),
{
}

/// Every value holds the same as itself.
pub proof fn lemma_same_as_itself(value: NodeValue)
    ensures
        value.same_as(&value),
{
}

/// Completeness: where every node that is no output device returns as many values as
/// its definition declares outputs, the result holds a value for each declared output of
/// each such node. It holds none for any output of an output device.
pub proof fn lemma_completeness(
    nodes: Map<u32, Node>,
    defs: Map<Seq<char>, NodeDef>,
    executors: Map<u32, Option<Box<dyn NodeExecutor>>>,
    produced: Map<u32, Vec<NodeValue>>,
    store: Map<NodeOutputRef, NodeValue>,
)
    requires
        is_result_of(nodes, defs, executors, produced, store),
        forall|v: u32|
            nodes.contains_key(v) && !is_output_device(nodes, defs, v) ==> keeps_output_count(
                def_of(nodes, defs, v),
                #[trigger] executors[v],
            ),
    ensures
        forall|v: u32, j: u8|
            nodes.contains_key(v) && !is_output_device(nodes, defs, v) && j < def_of(
                nodes,
                defs,
                v,
            ).outputs@.len() ==> #[trigger] store.contains_key(
                NodeOutputRef { from_node_id: v, node_output_index: j },
            ),
        forall|v: u32, j: u8|
            nodes.contains_key(v) && is_output_device(nodes, defs, v) ==> !#[trigger] store.contains_key(
                NodeOutputRef { from_node_id: v, node_output_index: j },
            ),
{
    assert forall|v: u32, j: u8|
        nodes.contains_key(v) && !is_output_device(nodes, defs, v) && j < def_of(
            nodes,
            defs,
            v,
        ).outputs@.len() implies #[trigger] store.contains_key(
        NodeOutputRef { from_node_id: v, node_output_index: j },
    ) by {
        assert(produced.dom().contains(v));
        assert(keeps_output_count(def_of(nodes, defs, v), executors[v]));
        let values = choose|values: Vec<&NodeValue>|
            inputs_handed(nodes[v].inputs@, store, values) && #[trigger] def_of(
                nodes,
                defs,
                v,
            ).yields(executors[v], values, produced[v]);
        assert(produced[v]@.len() == def_of(nodes, defs, v).outputs@.len());
        assert(produced_values(produced)[v] == produced[v]@);
    }
    assert forall|v: u32, j: u8|
        nodes.contains_key(v) && is_output_device(nodes, defs, v) implies !#[trigger] store.contains_key(
        NodeOutputRef { from_node_id: v, node_output_index: j },
    ) by {
        let values = choose|values: Vec<&NodeValue>|
            inputs_handed(nodes[v].inputs@, store, values) && #[trigger] def_of(
                nodes,
                defs,
                v,
            ).yields(executors[v], values, produced[v]);
        assert(produced[v]@.len() == 0);
        assert(produced_values(produced)[v] == produced[v]@);
    }
}

/// Two runs of a graph whose definitions are deterministic agree on what every node
/// placed before wave `k` produced.
proof fn lemma_runs_agree(
    nodes: Map<u32, Node>,
    defs: Map<Seq<char>, NodeDef>,
    first_executors: Map<u32, Option<Box<dyn NodeExecutor>>>,
    first: Map<u32, Vec<NodeValue>>,
    second_executors: Map<u32, Option<Box<dyn NodeExecutor>>>,
    second: Map<u32, Vec<NodeValue>>,
    k: nat,
    v: u32,
)
    requires
        is_result_of(
            nodes,
            defs,
            first_executors,
            first,
            stored_outputs(produced_values(first)),
        ),
        is_result_of(
            nodes,
            defs,
            second_executors,
            second,
            stored_outputs(produced_values(second)),
        ),
        forall|v: u32|
            nodes.contains_key(v) ==> is_deterministic(
                def_of(nodes, defs, v),
                #[trigger] first_executors[v],
                second_executors[v],
            ),
        placed_before(graph_deps(nodes), k).contains(v),
    ensures
        nodes.contains_key(v),
        same_values(first[v]@, second[v]@),
    decreases k,
{
    if k > 0 {
        let deps = graph_deps(nodes);
        let earlier = placed_before(deps, (k - 1) as nat);
        if earlier.contains(v) {
            lemma_runs_agree(
                nodes,
                defs,
                first_executors,
                first,
                second_executors,
                second,
                (k - 1) as nat,
                v,
            );
        } else {
            let node = nodes[v];
            let def = def_of(nodes, defs, v);
            let first_store = stored_outputs(produced_values(first));
            let second_store = stored_outputs(produced_values(second));
            let first_inputs = choose|values: Vec<&NodeValue>|
                inputs_handed(node.inputs@, first_store, values) && #[trigger] def.yields(
                    first_executors[v],
                    values,
                    first[v],
                );
            let second_inputs = choose|values: Vec<&NodeValue>|
                inputs_handed(node.inputs@, second_store, values) && #[trigger] def.yields(
                    second_executors[v],
                    values,
                    second[v],
                );
            assert forall|i: int| 0 <= i < node.inputs@.len() implies (#[trigger] values_of(
                first_inputs,
            )[i]).same_as(&values_of(second_inputs)[i]) by {
                assert(*first_inputs@[i] == crate::node::input_value(node.inputs@[i], first_store));
                assert(*second_inputs@[i] == crate::node::input_value(
                    node.inputs@[i],
                    second_store,
                ));
                match node.inputs@[i] {
                    NodeInput::Const(value) => {
                        lemma_same_as_itself(value);
                    },
                    NodeInput::Wire(output) => {
                        lemma_wire_refs(node.inputs@, output);
                        let refs = wire_refs(node.inputs@);
                        let b = choose|b: int| 0 <= b < refs.len() && refs[b] == output;
                        assert(wire_sources(node.inputs@)[b] == output.from_node_id);
                        assert(deps[v].contains(output.from_node_id));
                        assert(earlier.contains(output.from_node_id));
                        lemma_runs_agree(
                            nodes,
                            defs,
                            first_executors,
                            first,
                            second_executors,
                            second,
                            (k - 1) as nat,
                            output.from_node_id,
                        );
                        assert(first_store.contains_key(output));
                        assert(second_store.contains_key(output));
                        assert(first[output.from_node_id]@[output.node_output_index as int].same_as(
                            &second[output.from_node_id]@[output.node_output_index as int],
                        ));
                    },
                }
            }
            assert(same_values(values_of(first_inputs), values_of(second_inputs)));
            assert(is_deterministic(def, first_executors[v], second_executors[v]));
        }
    }
}

/// Determinism: a graph whose definitions are deterministic has one result. Whatever the
/// number of workers, in whatever order the nodes of a wave ran, and whether or not the
/// graph was prepared anew in between, two executions return stores that hold the same
/// values for the same outputs.
pub proof fn lemma_determinism(
    nodes: Map<u32, Node>,
    defs: Map<Seq<char>, NodeDef>,
    waves: Seq<Seq<u32>>,
    first_executors: Map<u32, Option<Box<dyn NodeExecutor>>>,
    first_produced: Map<u32, Vec<NodeValue>>,
    first: Map<NodeOutputRef, NodeValue>,
    second_executors: Map<u32, Option<Box<dyn NodeExecutor>>>,
    second_produced: Map<u32, Vec<NodeValue>>,
    second: Map<NodeOutputRef, NodeValue>,
)
    requires
        is_layering(graph_deps(nodes), waves),
        is_result_of(nodes, defs, first_executors, first_produced, first),
        is_result_of(nodes, defs, second_executors, second_produced, second),
        forall|v: u32|
            nodes.contains_key(v) ==> is_deterministic(
                def_of(nodes, defs, v),
                #[trigger] first_executors[v],
                second_executors[v],
            ),
    ensures
        same_stores(first, second),
{
    let deps = graph_deps(nodes);
    assert(deps.dom() =~= nodes.dom());
    assert forall|v: u32| nodes.contains_key(v) implies same_values(
        (#[trigger] first_produced[v])@,
        second_produced[v]@,
    ) by {
        assert(placed_before(deps, waves.len()).contains(v));
        lemma_runs_agree(
            nodes,
            defs,
            first_executors,
            first_produced,
            second_executors,
            second_produced,
            waves.len(),
            v,
        );
    }
    assert forall|output: NodeOutputRef| first.contains_key(output) <==> second.contains_key(
        output,
    ) by {
        if nodes.contains_key(output.from_node_id) {
            assert(same_values(
                first_produced[output.from_node_id]@,
                second_produced[output.from_node_id]@,
            ));
        }
    }
    assert(first.dom() =~= second.dom());
    assert forall|output: NodeOutputRef| first.contains_key(output) implies (#[trigger] first[output]).same_as(
        &second[output],
    ) by {
        assert(same_values(
            first_produced[output.from_node_id]@,
            second_produced[output.from_node_id]@,
        ));
        assert(first_produced[output.from_node_id]@[output.node_output_index as int].same_as(
            &second_produced[output.from_node_id]@[output.node_output_index as int],
        ));
    }
}

/// Determinism of `execute`: two ready graphs of the same nodes and definitions, prepared
/// with whatever numbers of threads, return stores that hold the same values for the same
/// outputs, where the definitions are deterministic.
pub proof fn lemma_execute_deterministic(
    first: &ComputeGraph,
    first_store: ResultStore,
    second: &ComputeGraph,
    second_store: ResultStore,
)
    requires
        first.wf(),
        second.wf(),
        first.state() == ComputeGraphState::Ready,
        second.state() == ComputeGraphState::Ready,
        first.nodes() == second.nodes(),
        first.registry()@ == second.registry()@,
        forall|v: u32|
            first.nodes().contains_key(v) ==> is_deterministic(
                first.def_of(v),
                #[trigger] first.executors()[v],
                second.executors()[v],
            ),
        call_ensures(
            ComputeGraph::execute,
            (first,),
            Ok::<ResultStore, GraphError>(first_store),
        ),
        call_ensures(
            ComputeGraph::execute,
            (second,),
            Ok::<ResultStore, GraphError>(second_store),
        ),
    ensures
        same_stores(first_store@, second_store@),
{
    let nodes = first.nodes();
    let defs = first.registry()@;
    assert(first.can_return(first_store@));
    assert(second.can_return(second_store@));
    let first_produced = choose|produced: Map<u32, Vec<NodeValue>>| #[trigger]
        is_result_of(nodes, defs, first.executors(), produced, first_store@);
    let second_produced = choose|produced: Map<u32, Vec<NodeValue>>| #[trigger]
        is_result_of(nodes, defs, second.executors(), produced, second_store@);
    lemma_determinism(
        nodes,
        defs,
        first.waves_view()->0,
        first.executors(),
        first_produced,
        first_store@,
        second.executors(),
        second_produced,
        second_store@,
    );
}

/// Repeatability of `execute`: two ready graphs of the same nodes and definitions,
/// prepared with whatever numbers of threads, both return a store, and the two stores hold
/// the same values for the same outputs, where every wire is served and the definitions
/// are deterministic.
pub proof fn lemma_execute_repeatable(
    first: &ComputeGraph,
    first_result: Result<ResultStore, GraphError>,
    second: &ComputeGraph,
    second_result: Result<ResultStore, GraphError>,
)
    requires
        first.wf(),
        second.wf(),
        first.state() == ComputeGraphState::Ready,
        second.state() == ComputeGraphState::Ready,
        first.nodes() == second.nodes(),
        first.registry()@ == second.registry()@,
        outputs_as_declared(first.nodes(), first.registry()@, first.executors()),
        outputs_as_declared(second.nodes(), second.registry()@, second.executors()),
        forall|v: u32|
            first.nodes().contains_key(v) ==> is_deterministic(
                first.def_of(v),
                #[trigger] first.executors()[v],
                second.executors()[v],
            ),
        call_ensures(ComputeGraph::execute, (first,), first_result),
        call_ensures(ComputeGraph::execute, (second,), second_result),
    ensures
        first_result matches Ok(first_store) && second_result matches Ok(second_store)
            && same_stores(first_store@, second_store@),
{
    lemma_execute_deterministic(first, first_result->Ok_0, second, second_result->Ok_0);
}

/// Completeness of `execute`: on a ready graph whose wires are all served, `execute`
/// returns a store, and the store holds a value for every declared output of every node
/// that is no output device.
pub proof fn lemma_execute_complete(
    graph: &ComputeGraph,
    result: Result<ResultStore, GraphError>,
    v: u32,
    j: u8,
)
    requires
        graph.wf(),
        graph.state() == ComputeGraphState::Ready,
        outputs_as_declared(graph.nodes(), graph.registry()@, graph.executors()),
        call_ensures(ComputeGraph::execute, (graph,), result),
        graph.nodes().contains_key(v),
        !is_output_device(graph.nodes(), graph.registry()@, v),
        j < graph.def_of(v).outputs@.len(),
    ensures
        result matches Ok(store) && store@.contains_key(
            NodeOutputRef { from_node_id: v, node_output_index: j },
        ),
{
    let nodes = graph.nodes();
    let defs = graph.registry()@;
    let store = result->Ok_0;
    assert(graph.can_return(store@));
    let produced = choose|produced: Map<u32, Vec<NodeValue>>| #[trigger]
        is_result_of(nodes, defs, graph.executors(), produced, store@);
    let values = choose|values: Vec<&NodeValue>|
        inputs_handed(nodes[v].inputs@, store@, values) && #[trigger] def_of(
            nodes,
            defs,
            v,
        ).yields(graph.executors()[v], values, produced[v]);
    assert(keeps_output_count(def_of(nodes, defs, v), graph.executors()[v]));
    assert(produced[v]@.len() == def_of(nodes, defs, v).outputs@.len());
    assert(produced_values(produced)[v] == produced[v]@);
}

} // verus!
