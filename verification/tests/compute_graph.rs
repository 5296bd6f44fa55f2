use proton::compute_graph::{ComputeGraph, ComputeGraphState, GraphError};
use proton::node::{Node, NodeInput};
use proton::node_def::{
    BoxedExecutor, NodeDef, NodeDefBasicDescription, NodeDefOutputRunner, NodeDefRunner,
    NodeExecutor, NodeExecutorFactory, NodeFunction, NodeInputDef, NodeOutputDef,
    NodeOutputFunction, OutputDevice,
};
use std::sync::{Arc, Mutex};
use proton::node_def_registry::NodeDefRegistry;
use proton::node_value::{NodeValue, NodeValueType};
use proton::result_store::NodeOutputRef;

struct One;

impl NodeFunction for One {
    fn run(&self, _inputs: Vec<&NodeValue>) -> Vec<NodeValue> {
        vec![NodeValue::Count(1)]
    }
}

struct Add;

impl NodeFunction for Add {
    fn run(&self, inputs: Vec<&NodeValue>) -> Vec<NodeValue> {
        match (inputs[0], inputs[1]) {
            (NodeValue::Count(count_1), NodeValue::Count(count_2)) => {
                vec![NodeValue::Count(count_1 + count_2)]
            }
            _ => panic!("Invalid type for NodeValue input"),
        }
    }
}

fn describe(name: &str, description: &str) -> NodeDefBasicDescription {
    NodeDefBasicDescription { name: name.to_string(), description: description.to_string() }
}

fn count_input(name: &str) -> NodeInputDef {
    NodeInputDef {
        desc: describe(name, "Automatic description of input"),
        allowed_types: vec![NodeValueType::Count],
        required: true,
    }
}

fn count_output() -> NodeOutputDef {
    NodeOutputDef {
        desc: describe("Generic output", "Generic output description"),
        output_type: NodeValueType::Count,
    }
}

fn one_def() -> NodeDef {
    NodeDef {
        desc: describe("Test Node", "Test Description"),
        inputs: vec![],
        outputs: vec![count_output()],
        runner: NodeDefRunner::Function(Box::new(One)),
    }
}

fn add_def() -> NodeDef {
    NodeDef {
        desc: describe("Test Node", "Test Description"),
        inputs: vec![count_input("count_1"), count_input("count_2")],
        outputs: vec![count_output()],
        runner: NodeDefRunner::Function(Box::new(Add)),
    }
}

fn wire(from_node_id: u32, node_output_index: u8) -> NodeInput {
    NodeInput::Wire(NodeOutputRef { from_node_id, node_output_index })
}

fn count(value: i64) -> NodeInput {
    NodeInput::Const(NodeValue::Count(value))
}

fn node(id: u32, def_name: &str, inputs: Vec<NodeInput>) -> Node {
    Node { id, def_name: def_name.to_string(), inputs }
}

fn registry() -> NodeDefRegistry {
    let mut registry = NodeDefRegistry::new();
    registry.register("output_1".to_owned(), one_def());
    registry.register("add".to_owned(), add_def());
    registry
}

fn sorted(wave: &Vec<u32>) -> Vec<u32> {
    let mut wave = wave.clone();
    wave.sort();
    wave
}

#[test]
fn executes_simple_graphs() {
    let registry = registry();
    let nodes = vec![
        node(1, "output_1", vec![]),
        node(2, "add", vec![wire(1, 0), count(3)]),
        node(3, "add", vec![wire(1, 0), count(5)]),
        node(4, "add", vec![wire(2, 0), wire(3, 0)]),
    ];
    let mut graph = ComputeGraph::new(&registry, nodes);

    graph.prepare(2);
    let result = graph.execute().unwrap();
    assert_eq!(
        result.get(&NodeOutputRef { from_node_id: 4, node_output_index: 0 }).unwrap(),
        &NodeValue::Count(10)
    );
}

#[test]
fn diamond_is_layered_into_three_waves() {
    let registry = registry();
    let nodes = vec![
        node(1, "output_1", vec![]),
        node(2, "add", vec![wire(1, 0), count(3)]),
        node(3, "add", vec![wire(1, 0), count(5)]),
        node(4, "add", vec![wire(2, 0), wire(3, 0)]),
    ];
    let mut graph = ComputeGraph::new(&registry, nodes);
    assert!(graph.prepare(2));
    assert_eq!(graph.get_state(), ComputeGraphState::Ready);
    let waves = graph.waves().unwrap();
    assert_eq!(waves.len(), 3);
    assert_eq!(sorted(&waves[0]), vec![1]);
    assert_eq!(sorted(&waves[1]), vec![2, 3]);
    assert_eq!(sorted(&waves[2]), vec![4]);
}

#[test]
fn cycle_is_detected() {
    let registry = registry();
    let nodes = vec![
        node(1, "add", vec![wire(2, 0), count(0)]),
        node(2, "add", vec![wire(1, 0), count(0)]),
    ];
    let mut graph = ComputeGraph::new(&registry, nodes);
    assert!(!graph.prepare(2));
    assert_eq!(graph.get_state(), ComputeGraphState::ErrFoundCycle);
    assert_eq!(graph.execute().err(), Some(GraphError::PreconditionNotReady));
}

#[test]
fn invalid_wire_is_detected() {
    let registry = registry();
    let nodes = vec![node(1, "add", vec![wire(99, 0), count(0)])];
    let mut graph = ComputeGraph::new(&registry, nodes);
    assert!(!graph.prepare(2));
    assert_eq!(
        graph.get_state(),
        ComputeGraphState::ErrInvalidWire { from_node: 1, to_missing_node: 99 }
    );
}

#[test]
fn linear_chain_gives_equal_stores_for_any_thread_count() {
    let registry = registry();
    let nodes = vec![
        node(1, "output_1", vec![]),
        node(2, "add", vec![wire(1, 0), count(1)]),
        node(3, "add", vec![wire(2, 0), count(1)]),
    ];
    let mut single = ComputeGraph::new(&registry, nodes.clone());
    assert!(single.prepare(1));
    let waves = single.waves().unwrap();
    assert_eq!(waves, &vec![vec![1], vec![2], vec![3]]);
    let first = single.execute().unwrap();

    let mut many = ComputeGraph::new(&registry, nodes);
    assert!(many.prepare(8));
    let second = many.execute().unwrap();
    let again = many.execute().unwrap();

    for id in 1..=3u32 {
        let output = NodeOutputRef { from_node_id: id, node_output_index: 0 };
        assert_eq!(first.get(&output), Some(&NodeValue::Count(id as i64)));
        assert_eq!(first.get(&output), second.get(&output));
        assert_eq!(first.get(&output), again.get(&output));
        let beyond = NodeOutputRef { from_node_id: id, node_output_index: 1 };
        assert!(!first.contains(&beyond));
        assert!(!second.contains(&beyond));
    }
    assert_eq!(
        first.get(&NodeOutputRef { from_node_id: 3, node_output_index: 0 }),
        Some(&NodeValue::Count(3))
    );
}

#[test]
fn result_holds_every_declared_output() {
    let registry = registry();
    let nodes = vec![
        node(1, "output_1", vec![]),
        node(2, "add", vec![wire(1, 0), count(3)]),
        node(3, "add", vec![wire(1, 0), count(5)]),
        node(4, "add", vec![wire(2, 0), wire(3, 0)]),
    ];
    let mut graph = ComputeGraph::new(&registry, nodes);
    assert!(graph.prepare(2));
    let result = graph.execute().unwrap();
    assert_eq!(result.get(&NodeOutputRef { from_node_id: 1, node_output_index: 0 }), Some(&NodeValue::Count(1)));
    assert_eq!(result.get(&NodeOutputRef { from_node_id: 2, node_output_index: 0 }), Some(&NodeValue::Count(4)));
    assert_eq!(result.get(&NodeOutputRef { from_node_id: 3, node_output_index: 0 }), Some(&NodeValue::Count(6)));
    assert_eq!(result.get(&NodeOutputRef { from_node_id: 4, node_output_index: 0 }), Some(&NodeValue::Count(10)));
    let mut outputs: Vec<(u32, u8)> = result
        .outputs()
        .into_iter()
        .map(|listed| (listed.from_node_id, listed.node_output_index))
        .collect();
    outputs.sort();
    assert_eq!(outputs, vec![(1, 0), (2, 0), (3, 0), (4, 0)]);
}

#[test]
fn every_dependency_lies_in_an_earlier_wave() {
    let registry = registry();
    let nodes = vec![
        node(10, "add", vec![wire(7, 0), wire(3, 0)]),
        node(7, "add", vec![wire(3, 0), count(1)]),
        node(3, "output_1", vec![]),
        node(5, "output_1", vec![]),
        node(12, "add", vec![wire(10, 0), wire(5, 0)]),
    ];
    let mut graph = ComputeGraph::new(&registry, nodes.clone());
    assert!(graph.prepare(4));
    let waves = graph.waves().unwrap();
    assert_eq!(waves.len(), 4);
    assert_eq!(sorted(&waves[0]), vec![3, 5]);
    assert_eq!(sorted(&waves[1]), vec![7]);
    assert_eq!(sorted(&waves[2]), vec![10]);
    assert_eq!(sorted(&waves[3]), vec![12]);
    let deps = graph.build_deps_graph();
    for (k, wave) in waves.iter().enumerate() {
        for id in wave {
            for dep in deps.get(id).unwrap() {
                assert!(waves[..k].iter().any(|earlier| earlier.contains(dep)));
            }
        }
    }
}

#[test]
fn mutation_invalidates_preparation() {
    let registry = registry();
    let nodes = vec![node(1, "output_1", vec![]), node(2, "add", vec![wire(1, 0), count(1)])];
    let mut graph = ComputeGraph::new(&registry, nodes);
    assert_eq!(graph.get_state(), ComputeGraphState::Unprepared);
    assert_eq!(graph.execute().err(), Some(GraphError::PreconditionNotReady));
    assert!(graph.prepare(2));
    assert_eq!(graph.get_state(), ComputeGraphState::Ready);

    graph.set_node(node(3, "add", vec![wire(2, 0), count(1)]));
    assert_eq!(graph.get_state(), ComputeGraphState::Unprepared);
    assert!(graph.waves().is_none());
    assert_eq!(graph.execute().err(), Some(GraphError::PreconditionNotReady));
    assert!(graph.prepare(2));
    let result = graph.execute().unwrap();
    assert_eq!(
        result.get(&NodeOutputRef { from_node_id: 3, node_output_index: 0 }),
        Some(&NodeValue::Count(3))
    );

    graph.remove_node(&3);
    assert_eq!(graph.get_state(), ComputeGraphState::Unprepared);
    assert_eq!(graph.execute().err(), Some(GraphError::PreconditionNotReady));
    assert!(graph.prepare(2));
    let result = graph.execute().unwrap();
    assert!(!result.contains(&NodeOutputRef { from_node_id: 3, node_output_index: 0 }));
    assert!(result.contains(&NodeOutputRef { from_node_id: 2, node_output_index: 0 }));
}

#[test]
fn set_node_replaces_a_node_of_the_same_id() {
    let registry = registry();
    let nodes = vec![node(1, "output_1", vec![]), node(2, "add", vec![wire(1, 0), count(1)])];
    let mut graph = ComputeGraph::new(&registry, nodes);
    graph.set_node(node(2, "add", vec![wire(1, 0), count(41)]));
    assert!(graph.prepare(2));
    let result = graph.execute().unwrap();
    assert_eq!(
        result.get(&NodeOutputRef { from_node_id: 2, node_output_index: 0 }),
        Some(&NodeValue::Count(42))
    );
}

#[test]
fn later_node_of_a_list_replaces_an_earlier_one() {
    let registry = registry();
    let nodes = vec![
        node(1, "output_1", vec![]),
        node(2, "add", vec![wire(1, 0), count(1)]),
        node(2, "add", vec![wire(1, 0), count(7)]),
    ];
    let mut graph = ComputeGraph::new(&registry, nodes);
    assert!(graph.prepare(2));
    let result = graph.execute().unwrap();
    assert_eq!(
        result.get(&NodeOutputRef { from_node_id: 2, node_output_index: 0 }),
        Some(&NodeValue::Count(8))
    );
}

#[test]
fn a_cycle_beside_sound_nodes_is_detected() {
    let registry = registry();
    let nodes = vec![
        node(1, "output_1", vec![]),
        node(2, "add", vec![wire(1, 0), wire(4, 0)]),
        node(3, "add", vec![wire(2, 0), count(0)]),
        node(4, "add", vec![wire(3, 0), count(0)]),
    ];
    let mut graph = ComputeGraph::new(&registry, nodes);
    assert_eq!(graph.prepare_graph_order(), Err(GraphError::CycleDetected));
    assert_eq!(graph.get_state(), ComputeGraphState::ErrFoundCycle);
    assert!(graph.waves().is_none());
    assert!(!graph.prepare(4));
    assert_eq!(graph.get_state(), ComputeGraphState::ErrFoundCycle);
}

#[test]
fn a_node_wired_to_itself_is_a_cycle() {
    let registry = registry();
    let nodes = vec![node(1, "add", vec![wire(1, 0), count(0)])];
    let mut graph = ComputeGraph::new(&registry, nodes);
    assert!(!graph.prepare(1));
    assert_eq!(graph.get_state(), ComputeGraphState::ErrFoundCycle);
}

#[test]
fn an_invalid_wire_is_reported_before_a_cycle() {
    let registry = registry();
    let nodes = vec![
        node(1, "add", vec![wire(2, 0), wire(99, 0)]),
        node(2, "add", vec![wire(1, 0), count(0)]),
    ];
    let mut graph = ComputeGraph::new(&registry, nodes);
    assert_eq!(
        graph.prepare_graph_order(),
        Err(GraphError::InvalidWire { from_node: 1, to_missing_node: 99 })
    );
    assert_eq!(
        graph.get_state(),
        ComputeGraphState::ErrInvalidWire { from_node: 1, to_missing_node: 99 }
    );
}

#[test]
fn unknown_definition_fails_preparation() {
    let registry = registry();
    let nodes = vec![node(1, "output_1", vec![]), node(2, "nowhere", vec![wire(1, 0)])];
    let mut graph = ComputeGraph::new(&registry, nodes);
    assert_eq!(graph.check_definitions(), Err(GraphError::UnknownDefinition { node: 2 }));
    assert!(!graph.prepare(2));
    assert_eq!(graph.get_state(), ComputeGraphState::Unprepared);
    assert_eq!(graph.execute().err(), Some(GraphError::PreconditionNotReady));
}

#[test]
fn input_count_mismatch_fails_preparation() {
    let registry = registry();
    let nodes = vec![node(1, "output_1", vec![]), node(2, "add", vec![wire(1, 0)])];
    let mut graph = ComputeGraph::new(&registry, nodes);
    assert_eq!(graph.check_definitions(), Err(GraphError::InputCountMismatch { node: 2 }));
    assert!(!graph.prepare(2));
    assert_eq!(graph.get_state(), ComputeGraphState::Unprepared);
}

#[test]
fn definitions_that_match_pass_the_check() {
    let registry = registry();
    let nodes = vec![node(1, "output_1", vec![]), node(2, "add", vec![wire(1, 0), count(2)])];
    let graph = ComputeGraph::new(&registry, nodes);
    assert_eq!(graph.check_definitions(), Ok(()));
}

#[test]
fn empty_graph_is_ready_and_returns_nothing() {
    let registry = registry();
    let mut graph = ComputeGraph::new(&registry, vec![]);
    assert_eq!(graph.prepare_graph_order(), Ok(1));
    assert!(graph.prepare(3));
    assert_eq!(graph.waves().unwrap().len(), 0);
    let result = graph.execute().unwrap();
    assert!(!result.contains(&NodeOutputRef { from_node_id: 0, node_output_index: 0 }));
}

#[test]
fn graph_order_reports_the_widest_wave() {
    let registry = registry();
    let nodes = vec![
        node(1, "output_1", vec![]),
        node(2, "add", vec![wire(1, 0), count(3)]),
        node(3, "add", vec![wire(1, 0), count(5)]),
        node(4, "add", vec![wire(1, 0), count(7)]),
        node(5, "add", vec![wire(2, 0), wire(3, 0)]),
    ];
    let mut graph = ComputeGraph::new(&registry, nodes);
    assert_eq!(graph.prepare_graph_order(), Ok(3));
    assert_eq!(graph.get_state(), ComputeGraphState::Unprepared);
}

#[test]
fn dependencies_list_the_sources_of_the_wires() {
    let registry = registry();
    let nodes = vec![
        node(1, "output_1", vec![]),
        node(2, "add", vec![wire(1, 0), count(3)]),
        node(4, "add", vec![wire(2, 0), wire(1, 0)]),
        node(5, "add", vec![wire(4, 0), wire(4, 0)]),
        node(6, "add", vec![count(1), count(2)]),
        node(7, "add", vec![wire(4, 1), wire(2, 0), wire(4, 0), wire(2, 3), wire(1, 0)]),
    ];
    let graph = ComputeGraph::new(&registry, nodes);
    let deps = graph.build_deps_graph();
    assert_eq!(deps.len(), 6);
    assert_eq!(deps.get(&6), Some(&vec![]));
    assert_eq!(deps.get(&7), Some(&vec![4, 2, 1]));
    assert_eq!(deps.get(&1), Some(&vec![]));
    assert_eq!(deps.get(&2), Some(&vec![1]));
    assert_eq!(deps.get(&4), Some(&vec![2, 1]));
    assert_eq!(deps.get(&5), Some(&vec![4]));
}

struct Splitter {
    seen: Arc<Mutex<Vec<Vec<bool>>>>,
}

impl NodeExecutor for Splitter {
    fn prepare(&self, enabled_outputs: &Vec<bool>) {
        self.seen.lock().unwrap().push(enabled_outputs.clone());
    }

    fn execute(&self, _inputs: Vec<&NodeValue>) -> Vec<NodeValue> {
        vec![NodeValue::Count(20), NodeValue::Count(22)]
    }
}

struct SplitterFactory {
    seen: Arc<Mutex<Vec<Vec<bool>>>>,
}

impl NodeExecutorFactory for SplitterFactory {
    fn create(&self) -> BoxedExecutor {
        BoxedExecutor(Box::new(Splitter { seen: self.seen.clone() }))
    }
}

fn splitter_def(seen: Arc<Mutex<Vec<Vec<bool>>>>) -> NodeDef {
    NodeDef {
        desc: describe("splitter", "Two counts"),
        inputs: vec![],
        outputs: vec![count_output(), count_output()],
        runner: NodeDefRunner::Executor(Box::new(SplitterFactory { seen })),
    }
}

#[test]
fn executor_is_prepared_with_the_outputs_in_use() {
    let seen = Arc::new(Mutex::new(Vec::new()));
    let mut registry = registry();
    registry.register("splitter".to_owned(), splitter_def(seen.clone()));
    let nodes = vec![node(1, "splitter", vec![]), node(2, "add", vec![wire(1, 0), count(1)])];
    let mut graph = ComputeGraph::new(&registry, nodes);

    let masks = graph.compute_active_outputs();
    assert_eq!(masks.len(), 2);
    assert_eq!(masks.get(&1), Some(&vec![true, false]));
    assert_eq!(masks.get(&2), Some(&vec![false]));

    assert!(graph.prepare(2));
    assert_eq!(*seen.lock().unwrap(), vec![vec![true, false]]);

    let result = graph.execute().unwrap();
    assert_eq!(result.get(&NodeOutputRef { from_node_id: 1, node_output_index: 0 }), Some(&NodeValue::Count(20)));
    assert_eq!(result.get(&NodeOutputRef { from_node_id: 1, node_output_index: 1 }), Some(&NodeValue::Count(22)));
    assert_eq!(result.get(&NodeOutputRef { from_node_id: 2, node_output_index: 0 }), Some(&NodeValue::Count(21)));
    assert_eq!(*seen.lock().unwrap(), vec![vec![true, false]]);
}

#[test]
fn wire_beyond_the_declared_outputs_marks_nothing_and_fails_execution() {
    let seen = Arc::new(Mutex::new(Vec::new()));
    let mut registry = registry();
    registry.register("splitter".to_owned(), splitter_def(seen.clone()));
    let nodes = vec![node(1, "splitter", vec![]), node(2, "add", vec![wire(1, 1), wire(1, 5)])];
    let mut graph = ComputeGraph::new(&registry, nodes);
    let masks = graph.compute_active_outputs();
    assert_eq!(masks.get(&1), Some(&vec![false, true]));
    assert!(graph.prepare(2));
    assert_eq!(
        graph.execute().err(),
        Some(GraphError::InvalidWire { from_node: 2, to_missing_node: 1 })
    );
}

struct Sink {
    calls: Arc<Mutex<usize>>,
    last: Arc<Mutex<Vec<NodeValue>>>,
}

impl NodeOutputFunction for Sink {
    fn run(&self, inputs: Vec<&NodeValue>) {
        *self.calls.lock().unwrap() += 1;
        let mut last = self.last.lock().unwrap();
        last.clear();
        for input in inputs {
            last.push(input.clone());
        }
    }
}

#[test]
fn output_device_is_a_sink() {
    let calls = Arc::new(Mutex::new(0usize));
    let last = Arc::new(Mutex::new(Vec::new()));
    let mut registry = registry();
    registry.register(
        "sink".to_owned(),
        NodeDef {
            desc: describe("sink", "Swallows a count"),
            inputs: vec![count_input("v")],
            outputs: vec![],
            runner: NodeDefRunner::OutputDevice(NodeDefOutputRunner {
                run: Box::new(Sink { calls: calls.clone(), last: last.clone() }),
                device: OutputDevice { name: "test device".to_string() },
            }),
        },
    );
    let nodes = vec![node(1, "output_1", vec![]), node(2, "sink", vec![wire(1, 0)])];
    let mut graph = ComputeGraph::new(&registry, nodes);
    assert!(graph.prepare(2));
    let result = graph.execute().unwrap();
    assert_eq!(result.get(&NodeOutputRef { from_node_id: 1, node_output_index: 0 }), Some(&NodeValue::Count(1)));
    for index in 0..=255u8 {
        assert!(!result.contains(&NodeOutputRef { from_node_id: 2, node_output_index: index }));
    }
    assert_eq!(*calls.lock().unwrap(), 1);
    assert_eq!(*last.lock().unwrap(), vec![NodeValue::Count(1)]);
}

#[test]
fn wire_from_an_output_device_fails_execution() {
    let calls = Arc::new(Mutex::new(0usize));
    let last = Arc::new(Mutex::new(Vec::new()));
    let mut registry = registry();
    registry.register(
        "sink".to_owned(),
        NodeDef {
            desc: describe("sink", "Swallows a count"),
            inputs: vec![count_input("v")],
            outputs: vec![],
            runner: NodeDefRunner::OutputDevice(NodeDefOutputRunner {
                run: Box::new(Sink { calls: calls.clone(), last }),
                device: OutputDevice { name: "test device".to_string() },
            }),
        },
    );
    let nodes = vec![
        node(1, "output_1", vec![]),
        node(2, "sink", vec![wire(1, 0)]),
        node(3, "add", vec![wire(2, 0), count(1)]),
    ];
    let mut graph = ComputeGraph::new(&registry, nodes);
    assert!(graph.prepare(2));
    assert_eq!(
        graph.execute().err(),
        Some(GraphError::InvalidWire { from_node: 3, to_missing_node: 2 })
    );
    assert_eq!(*calls.lock().unwrap(), 1);
}

#[test]
fn evaluate_node_runs_one_node_of_a_ready_graph() {
    let registry = registry();
    let nodes = vec![node(1, "output_1", vec![]), node(2, "add", vec![wire(1, 0), count(4)])];
    let mut graph = ComputeGraph::new(&registry, nodes);
    assert!(graph.prepare(1));
    let mut store = proton::result_store::ResultStore::new();
    store.insert(NodeOutputRef { from_node_id: 1, node_output_index: 0 }, NodeValue::Count(6));
    assert_eq!(graph.evaluate_node(2, &store), vec![NodeValue::Count(10)]);
    assert_eq!(graph.evaluate_node(1, &store), vec![NodeValue::Count(1)]);
}

#[test]
fn zero_threads_leave_the_number_to_the_pool() {
    let registry = registry();
    let nodes = vec![node(1, "output_1", vec![]), node(2, "add", vec![wire(1, 0), count(4)])];
    let mut graph = ComputeGraph::new(&registry, nodes);
    assert!(graph.prepare(0));
    let result = graph.execute().unwrap();
    assert_eq!(
        result.get(&NodeOutputRef { from_node_id: 2, node_output_index: 0 }),
        Some(&NodeValue::Count(5))
    );
}

#[test]
fn errors_say_what_is_wrong() {
    assert_eq!(
        GraphError::PreconditionNotReady.message(),
        "Must call .prepare() before executing the graph."
    );
    assert_eq!(GraphError::CycleDetected.message(), "The graph contains a cycle.");
    assert_eq!(
        GraphError::InvalidWire { from_node: 1, to_missing_node: 2 }.message(),
        "A wire leads to an output that is not there."
    );
    assert_eq!(
        GraphError::UnknownDefinition { node: 1 }.message(),
        "A node names a definition that is not registered."
    );
    assert_eq!(
        GraphError::InputCountMismatch { node: 1 }.message(),
        "A node has not the inputs that its definition declares."
    );
}

#[test]
fn states_name_their_error() {
    assert_eq!(ComputeGraphState::Ready.error(), None);
    assert_eq!(ComputeGraphState::Unprepared.error(), Some(GraphError::PreconditionNotReady));
    assert_eq!(ComputeGraphState::ErrFoundCycle.error(), Some(GraphError::CycleDetected));
    assert_eq!(
        ComputeGraphState::ErrInvalidWire { from_node: 4, to_missing_node: 9 }.error(),
        Some(GraphError::InvalidWire { from_node: 4, to_missing_node: 9 })
    );
}

#[test]
fn pool_has_as_many_threads_as_the_widest_wave_can_use() {
    let registry = registry();
    let nodes = vec![
        node(1, "output_1", vec![]),
        node(2, "add", vec![wire(1, 0), count(3)]),
        node(3, "add", vec![wire(1, 0), count(5)]),
        node(4, "add", vec![wire(1, 0), count(7)]),
        node(5, "add", vec![wire(2, 0), wire(3, 0)]),
    ];
    let mut graph = ComputeGraph::new(&registry, nodes);
    assert_eq!(graph.thread_count(), None);
    assert!(graph.prepare(2));
    assert_eq!(graph.thread_count(), Some(2));
    assert!(graph.prepare(8));
    assert_eq!(graph.thread_count(), Some(3));
    assert!(graph.prepare(1));
    assert_eq!(graph.thread_count(), Some(1));
    assert!(graph.prepare(3));
    assert_eq!(graph.thread_count(), Some(3));
    graph.set_node(node(6, "add", vec![wire(5, 0), count(1)]));
    assert_eq!(graph.thread_count(), None);
    assert!(graph.waves().is_none());
    assert!(graph.prepare(2));
    graph.remove_node(&6);
    assert_eq!(graph.thread_count(), None);
    graph.set_node(node(6, "add", vec![wire(6, 0), count(1)]));
    assert!(!graph.prepare(2));
    assert_eq!(graph.thread_count(), None);
}

#[test]
fn a_ready_graph_can_be_prepared_again() {
    let seen = Arc::new(Mutex::new(Vec::new()));
    let mut registry = registry();
    registry.register("splitter".to_owned(), splitter_def(seen.clone()));
    let nodes = vec![node(1, "splitter", vec![]), node(2, "add", vec![wire(1, 1), count(0)])];
    let mut graph = ComputeGraph::new(&registry, nodes);
    assert!(graph.prepare(2));
    assert!(graph.prepare(1));
    assert_eq!(graph.get_state(), ComputeGraphState::Ready);
    assert_eq!(*seen.lock().unwrap(), vec![vec![false, true], vec![false, true]]);
    let result = graph.execute().unwrap();
    assert_eq!(
        result.get(&NodeOutputRef { from_node_id: 2, node_output_index: 0 }),
        Some(&NodeValue::Count(22))
    );
}

#[test]
fn graph_without_pool_runs_on_the_calling_thread() {
    let seen = Arc::new(Mutex::new(Vec::new()));
    let calls = Arc::new(Mutex::new(0usize));
    let last = Arc::new(Mutex::new(Vec::new()));
    let mut registry = registry();
    registry.register("splitter".to_owned(), splitter_def(seen.clone()));
    registry.register(
        "sink".to_owned(),
        NodeDef {
            desc: describe("sink", "Swallows a count"),
            inputs: vec![count_input("v")],
            outputs: vec![],
            runner: NodeDefRunner::OutputDevice(NodeDefOutputRunner {
                run: Box::new(Sink { calls: calls.clone(), last: last.clone() }),
                device: OutputDevice { name: "test device".to_string() },
            }),
        },
    );
    let nodes = vec![
        node(1, "output_1", vec![]),
        node(2, "add", vec![wire(1, 0), count(3)]),
        node(3, "add", vec![wire(1, 0), count(5)]),
        node(4, "add", vec![wire(2, 0), wire(3, 0)]),
        node(5, "splitter", vec![]),
        node(6, "add", vec![wire(5, 1), wire(4, 0)]),
        node(7, "sink", vec![wire(6, 0)]),
    ];
    let mut graph = ComputeGraph::new(&registry, nodes.clone());
    assert!(graph.prepare_without_pool());
    assert_eq!(graph.get_state(), ComputeGraphState::Ready);
    assert_eq!(graph.thread_count(), None);
    assert_eq!(*seen.lock().unwrap(), vec![vec![false, true]]);
    let alone = graph.execute().unwrap();
    assert_eq!(alone.get(&NodeOutputRef { from_node_id: 4, node_output_index: 0 }), Some(&NodeValue::Count(10)));
    assert_eq!(alone.get(&NodeOutputRef { from_node_id: 6, node_output_index: 0 }), Some(&NodeValue::Count(32)));
    assert_eq!(*calls.lock().unwrap(), 1);
    assert_eq!(*last.lock().unwrap(), vec![NodeValue::Count(32)]);

    let mut pooled = ComputeGraph::new(&registry, nodes);
    assert!(pooled.prepare(4));
    let together = pooled.execute().unwrap();
    let mut outputs: Vec<(u32, u8)> = alone
        .outputs()
        .into_iter()
        .map(|listed| (listed.from_node_id, listed.node_output_index))
        .collect();
    outputs.sort();
    assert_eq!(outputs, vec![(1, 0), (2, 0), (3, 0), (4, 0), (5, 0), (5, 1), (6, 0)]);
    for (from_node_id, node_output_index) in outputs {
        let output = NodeOutputRef { from_node_id, node_output_index };
        assert_eq!(alone.get(&output), together.get(&output));
    }
}

#[test]
fn preparation_without_pool_names_the_same_faults() {
    let registry = registry();
    let mut cyclic = ComputeGraph::new(
        &registry,
        vec![node(1, "add", vec![wire(2, 0), count(0)]), node(2, "add", vec![wire(1, 0), count(0)])],
    );
    assert!(!cyclic.prepare_without_pool());
    assert_eq!(cyclic.get_state(), ComputeGraphState::ErrFoundCycle);
    let mut dangling = ComputeGraph::new(&registry, vec![node(1, "add", vec![wire(99, 0), count(0)])]);
    assert!(!dangling.prepare_without_pool());
    assert_eq!(
        dangling.get_state(),
        ComputeGraphState::ErrInvalidWire { from_node: 1, to_missing_node: 99 }
    );
    let mut unknown = ComputeGraph::new(&registry, vec![node(1, "nowhere", vec![])]);
    assert!(!unknown.prepare_without_pool());
    assert_eq!(unknown.get_state(), ComputeGraphState::Unprepared);
}
