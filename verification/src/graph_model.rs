use vstd::prelude::*;
use crate::node::{evaluates_to, inputs_available, Node, NodeInput};
use crate::node_def::{NodeDef, NodeExecutor};
use crate::node_value::NodeValue;
use crate::result_store::{stored_outputs, NodeOutputRef};

verus! {

/// The wires among the inputs of a node, in the order of the inputs.
pub open spec fn wire_refs(inputs: Seq<NodeInput>) -> Seq<NodeOutputRef>
    decreases inputs.len(),
{
    if inputs.len() == 0 {
        Seq::empty()
    } else {
        let earlier = wire_refs(inputs.drop_last());
        match inputs.last() {
            NodeInput::Wire(output) => earlier.push(output),
            NodeInput::Const(_) => earlier,
        }
    }
}

/// The nodes that the wires among the inputs of a node come from, in the order of the
/// inputs.
pub open spec fn wire_sources(inputs: Seq<NodeInput>) -> Seq<u32> {
    wire_refs(inputs).map_values(|output: NodeOutputRef| output.from_node_id)
}

/// A list without its repetitions: each element once, at the place where it comes first.
pub open spec fn distinct(list: Seq<u32>) -> Seq<u32>
    decreases list.len(),
{
    if list.len() == 0 {
        Seq::empty()
    } else {
        let front = distinct(list.drop_last());
        if front.contains(list.last()) {
            front
        } else {
            front.push(list.last())
        }
    }
}

/// A list without its repetitions holds nothing twice, and holds what the list holds.
pub proof fn lemma_distinct(list: Seq<u32>)
    ensures
        distinct(list).no_duplicates(),
        distinct(list).to_set() == list.to_set(),
    decreases list.len(),
{
    if list.len() > 0 {
        let shorter = list.drop_last();
        let front = distinct(shorter);
        lemma_distinct(shorter);
        assert forall|x: u32| distinct(list).to_set().contains(x) <==> list.to_set().contains(x) by {
            if list.contains(x) {
                let i = choose|i: int| 0 <= i < list.len() && list[i] == x;
                if i < shorter.len() {
                    assert(shorter[i] == x);
                    assert(shorter.to_set().contains(x));
                    assert(front.to_set().contains(x));
                    let b = choose|b: int| 0 <= b < front.len() && front[b] == x;
                    assert(distinct(list)[b] == x);
                } else if !front.contains(x) {
                    assert(distinct(list)[front.len() as int] == x);
                }
            }
            if distinct(list).contains(x) {
                let b = choose|b: int| 0 <= b < distinct(list).len() && distinct(list)[b] == x;
                if b < front.len() {
                    assert(front[b] == x);
                    assert(front.to_set().contains(x));
                    assert(shorter.to_set().contains(x));
                    let i = choose|i: int| 0 <= i < shorter.len() && shorter[i] == x;
                    assert(list[i] == x);
                } else {
                    assert(list[list.len() - 1] == x);
                }
            }
        }
        assert(distinct(list).to_set() =~= list.to_set());
    } else {
        assert(distinct(list).to_set() =~= list.to_set());
    }
}

/// The nodes that a node depends on: the nodes that its wires come from, each once, in
/// the order in which the inputs name them first.
pub open spec fn dependencies(inputs: Seq<NodeInput>) -> Seq<u32> {
    distinct(wire_sources(inputs))
}

/// What each node of a graph depends on: the nodes that its wires come from.
pub open spec fn graph_deps(nodes: Map<u32, Node>) -> Map<u32, Set<u32>> {
    Map::new(|v: u32| nodes.contains_key(v), |v: u32| wire_sources(nodes[v].inputs@).to_set())
}

/// Whether a wire of the node `from_node` leads to `to_missing_node`, and that is no node
/// of the graph.
pub open spec fn is_invalid_wire(nodes: Map<u32, Node>, from_node: u32, to_missing_node: u32) -> bool {
    &&& nodes.contains_key(from_node)
    &&& graph_deps(nodes)[from_node].contains(to_missing_node)
    &&& !nodes.contains_key(to_missing_node)
}

/// Whether some wire of the graph consumes this output.
pub open spec fn wire_in_use(nodes: Map<u32, Node>, output: NodeOutputRef) -> bool {
    exists|v: u32| nodes.contains_key(v) && #[trigger] wire_refs(nodes[v].inputs@).contains(output)
}

/// The definition of a node of the graph.
pub open spec fn def_of(nodes: Map<u32, Node>, defs: Map<Seq<char>, NodeDef>, v: u32) -> NodeDef {
    defs[nodes[v].def_name@]
}

/// Whether a node of the graph runs by an output device.
pub open spec fn is_output_device(
    nodes: Map<u32, Node>,
    defs: Map<Seq<char>, NodeDef>,
    v: u32,
) -> bool {
    def_of(nodes, defs, v).runner is OutputDevice
}

/// Whether the registry holds the definition of every node.
pub open spec fn definitions_known(nodes: Map<u32, Node>, defs: Map<Seq<char>, NodeDef>) -> bool {
    forall|v: u32| nodes.contains_key(v) ==> defs.contains_key(#[trigger] nodes[v].def_name@)
}

/// Whether every node has as many inputs as its definition declares.
pub open spec fn input_counts_match(nodes: Map<u32, Node>, defs: Map<Seq<char>, NodeDef>) -> bool {
    forall|v: u32|
        nodes.contains_key(v) ==> (#[trigger] nodes[v]).inputs@.len()
            == defs[nodes[v].def_name@].inputs@.len()
}

/// The nodes that a list of nodes makes: each under its id, a later one in place of an
/// earlier one of the same id.
pub open spec fn nodes_of(list: Seq<Node>) -> Map<u32, Node>
    decreases list.len(),
{
    if list.len() == 0 {
        Map::empty()
    } else {
        nodes_of(list.drop_last()).insert(list.last().id, list.last())
    }
}

/// A wire is among the wires of some inputs exactly if it is one of the inputs.
pub proof fn lemma_wire_refs(inputs: Seq<NodeInput>, output: NodeOutputRef)
    ensures
        wire_refs(inputs).contains(output) <==> exists|i: int|
            0 <= i < inputs.len() && inputs[i] == NodeInput::Wire(output),
    decreases inputs.len(),
{
    if inputs.len() > 0 {
        let front = inputs.drop_last();
        lemma_wire_refs(front, output);
        if wire_refs(inputs).contains(output) {
            let b = choose|b: int| 0 <= b < wire_refs(inputs).len() && wire_refs(inputs)[b] == output;
            if b < wire_refs(front).len() {
                assert(wire_refs(front)[b] == output);
                let i = choose|i: int| 0 <= i < front.len() && front[i] == NodeInput::Wire(output);
                assert(inputs[i] == NodeInput::Wire(output));
            } else {
                assert(inputs[inputs.len() - 1] == NodeInput::Wire(output));
            }
        }
        if exists|i: int| 0 <= i < inputs.len() && inputs[i] == NodeInput::Wire(output) {
            let i = choose|i: int| 0 <= i < inputs.len() && inputs[i] == NodeInput::Wire(output);
            if i < front.len() {
                assert(front[i] == NodeInput::Wire(output));
                let b = choose|b: int| 0 <= b < wire_refs(front).len() && wire_refs(front)[b] == output;
                assert(wire_refs(inputs)[b] == output);
            } else {
                assert(wire_refs(inputs)[wire_refs(front).len() as int] == output);
            }
        }
    }
}

/// Whether `masks` marks the outputs in use: each node has one mark for each output that
/// its definition declares, set exactly where some wire of the graph consumes that output.
pub open spec fn is_active_outputs(
    nodes: Map<u32, Node>,
    defs: Map<Seq<char>, NodeDef>,
    masks: Map<u32, Vec<bool>>,
) -> bool {
    &&& masks.dom() == nodes.dom()
    &&& forall|v: u32|
        nodes.contains_key(v) ==> (#[trigger] masks[v])@.len()
            == defs[nodes[v].def_name@].outputs@.len()
    &&& forall|v: u32, j: int|
        nodes.contains_key(v) && 0 <= j < masks[v]@.len() ==> #[trigger] masks[v]@[j] == (j < 256
            && wire_in_use(
            nodes,
            NodeOutputRef { from_node_id: v, node_output_index: j as u8 },
        ))
}

/// What the nodes produced, as sequences of values.
pub open spec fn produced_values(produced: Map<u32, Vec<NodeValue>>) -> Map<u32, Seq<NodeValue>> {
    Map::new(|v: u32| produced.contains_key(v), |v: u32| produced[v]@)
}

/// Whether `masks` are the masks of outputs in use, and `executors` are what binding
/// the nodes with them can give: each node of a definition that runs by an executor has
/// one, made by the definition's factory and prepared with the node's mask, and no other
/// node has any.
pub open spec fn executors_bound_with(
    nodes: Map<u32, Node>,
    defs: Map<Seq<char>, NodeDef>,
    masks: Map<u32, Vec<bool>>,
    executors: Map<u32, Option<Box<dyn NodeExecutor>>>,
) -> bool {
    &&& is_active_outputs(nodes, defs, masks)
    &&& executors.dom() == nodes.dom()
    &&& forall|v: u32|
        nodes.contains_key(v) ==> def_of(nodes, defs, v).binds(masks[v], #[trigger] executors[v])
}

/// Whether a definition always returns as many values as it declares outputs.
pub open spec fn keeps_output_count(def: NodeDef, executor: Option<Box<dyn NodeExecutor>>) -> bool {
    forall|inputs: Vec<&NodeValue>, outputs: Vec<NodeValue>| #[trigger]
        def.yields(executor, inputs, outputs) ==> outputs@.len() == def.outputs@.len()
}

/// Whether every wire of the graph is served: every node that is no output device
/// returns as many values as its definition declares outputs, and every wire leads to a
/// declared output of a node that is no output device. On such a graph no wire can miss
/// its value.
pub open spec fn outputs_as_declared(
    nodes: Map<u32, Node>,
    defs: Map<Seq<char>, NodeDef>,
    executors: Map<u32, Option<Box<dyn NodeExecutor>>>,
) -> bool {
    &&& forall|v: u32|
        nodes.contains_key(v) && !is_output_device(nodes, defs, v) ==> keeps_output_count(
            def_of(nodes, defs, v),
            #[trigger] executors[v],
        )
    &&& forall|output: NodeOutputRef| #[trigger]
        wire_in_use(nodes, output) ==> !is_output_device(nodes, defs, output.from_node_id)
            && output.node_output_index < def_of(nodes, defs, output.from_node_id).outputs@.len()
}

/// Whether `wire` is a wire of the node `from_node` whose value can be missing when the
/// node is to run: it comes from an output device, or from an output that the definition
/// of its node does not declare, or from a node whose definition does not keep to the
/// number of outputs that it declares.
pub open spec fn is_unserved_wire(
    nodes: Map<u32, Node>,
    defs: Map<Seq<char>, NodeDef>,
    executors: Map<u32, Option<Box<dyn NodeExecutor>>>,
    from_node: u32,
    wire: NodeOutputRef,
) -> bool {
    &&& nodes.contains_key(from_node)
    &&& wire_refs(nodes[from_node].inputs@).contains(wire)
    &&& nodes.contains_key(wire.from_node_id)
    &&& {
        ||| is_output_device(nodes, defs, wire.from_node_id)
        ||| wire.node_output_index >= def_of(nodes, defs, wire.from_node_id).outputs@.len()
        ||| !keeps_output_count(def_of(nodes, defs, wire.from_node_id), executors[wire.from_node_id])
    }
}

/// Whether some wire of the node `from_node` that comes from `to_missing_node` is
/// unserved.
pub open spec fn has_unserved_wire(
    nodes: Map<u32, Node>,
    defs: Map<Seq<char>, NodeDef>,
    executors: Map<u32, Option<Box<dyn NodeExecutor>>>,
    from_node: u32,
    to_missing_node: u32,
) -> bool {
    exists|wire: NodeOutputRef| #[trigger]
        is_unserved_wire(nodes, defs, executors, from_node, wire) && wire.from_node_id
            == to_missing_node
}

/// Whether `store` can be what an execution returns when the nodes produced `produced`:
/// it holds what they produced and nothing else, every wire of the graph finds its value
/// in it, and what each node produced is something that evaluating the node on it can
/// return.
pub open spec fn is_result_of(
    nodes: Map<u32, Node>,
    defs: Map<Seq<char>, NodeDef>,
    executors: Map<u32, Option<Box<dyn NodeExecutor>>>,
    produced: Map<u32, Vec<NodeValue>>,
    store: Map<NodeOutputRef, NodeValue>,
) -> bool {
    &&& produced.dom() == nodes.dom()
    &&& store == stored_outputs(produced_values(produced))
    &&& forall|v: u32|
        nodes.contains_key(v) ==> inputs_available((#[trigger] nodes[v]).inputs@, store)
    &&& forall|v: u32|
        nodes.contains_key(v) ==> evaluates_to(
            nodes[v],
            def_of(nodes, defs, v),
            executors[v],
            store,
            #[trigger] produced[v],
        )
}

/// Evaluation looks at the values of the node's wires only: what a node can return on
/// one store, it can return on any store that holds the same values for its wires.
pub proof fn lemma_evaluation_stable(
    node: Node,
    def: NodeDef,
    executor: Option<Box<dyn NodeExecutor>>,
    store: Map<NodeOutputRef, NodeValue>,
    other: Map<NodeOutputRef, NodeValue>,
    outputs: Vec<NodeValue>,
)
    requires
        evaluates_to(node, def, executor, store, outputs),
        inputs_available(node.inputs@, store),
        forall|output: NodeOutputRef| #[trigger]
            store.contains_key(output) ==> other.contains_key(output) && other[output]
                == store[output],
    ensures
        evaluates_to(node, def, executor, other, outputs),
        inputs_available(node.inputs@, other),
{
    let values = choose|values: Vec<&NodeValue>|
        crate::node::inputs_handed(node.inputs@, store, values) && #[trigger] def.yields(
            executor,
            values,
            outputs,
        );
    assert forall|i: int| 0 <= i < values@.len() implies *#[trigger] values@[i]
        == crate::node::input_value(node.inputs@[i], other) by {
        match node.inputs@[i] {
            NodeInput::Const(_) => {},
            NodeInput::Wire(output) => {
                assert(store.contains_key(output));
            },
        }
    }
    assert(crate::node::inputs_handed(node.inputs@, other, values));
    assert forall|i: int| 0 <= i < node.inputs@.len() implies (#[trigger] node.inputs@[i] matches NodeInput::Wire(
        output,
    ) ==> other.contains_key(output)) by {
        if node.inputs@[i] is Wire {
            assert(store.contains_key(node.inputs@[i]->Wire_0));
        }
    }
}

} // verus!
