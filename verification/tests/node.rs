use proton::node::{Node, NodeInput, NodeOutputRef};
use proton::node_def::{
    create_executor, prepare_executor, run_executor, run_function, run_output_function,
    BoxedExecutor, NodeDef,
    NodeDefBasicDescription, NodeDefOutputRunner, NodeDefRunner, NodeExecutor,
    NodeExecutorFactory, NodeFunction, NodeInputDef, NodeOutputDef, NodeOutputFunction,
    OutputDevice,
};
use proton::node_def_registry::NodeDefRegistry;
use proton::node_value::{NodeValue, NodeValueType};
use proton::result_store::ResultStore;

struct Sum;

impl NodeFunction for Sum {
    fn run(&self, inputs: Vec<&NodeValue>) -> Vec<NodeValue> {
        match (inputs[0], inputs[1]) {
            (NodeValue::Count(count_1), NodeValue::Count(count_2)) => {
                vec![NodeValue::Count(count_1 + count_2)]
            }
            _ => panic!("Invalid type for NodeValue input"),
        }
    }
}

struct Swallow;

impl NodeOutputFunction for Swallow {
    fn run(&self, _inputs: Vec<&NodeValue>) {}
}

struct Doubler;

impl NodeExecutor for Doubler {
    fn prepare(&self, _enabled_outputs: &Vec<bool>) {}

    fn execute(&self, inputs: Vec<&NodeValue>) -> Vec<NodeValue> {
        match inputs[0] {
            NodeValue::Count(count) => vec![NodeValue::Count(count * 2)],
            _ => panic!("Invalid type for NodeValue input"),
        }
    }
}

struct DoublerFactory;

impl NodeExecutorFactory for DoublerFactory {
    fn create(&self) -> BoxedExecutor {
        BoxedExecutor(Box::new(Doubler))
    }
}

fn description(name: &str) -> NodeDefBasicDescription {
    NodeDefBasicDescription { name: name.to_string(), description: "Test Description".to_string() }
}

fn count_inputs(names: &[&str]) -> Vec<NodeInputDef> {
    names
        .iter()
        .map(|name| NodeInputDef {
            desc: description(name),
            allowed_types: vec![NodeValueType::Count],
            required: true,
        })
        .collect()
}

fn count_outputs(count: usize) -> Vec<NodeOutputDef> {
    (0..count)
        .map(|_| NodeOutputDef {
            desc: description("Generic output"),
            output_type: NodeValueType::Count,
        })
        .collect()
}

fn sum_def() -> NodeDef {
    NodeDef {
        desc: description("Test Node"),
        inputs: count_inputs(&["count_1", "count_2"]),
        outputs: count_outputs(1),
        runner: NodeDefRunner::Function(Box::new(Sum)),
    }
}

#[test]
fn evaluates_function() {
    let mut registry = NodeDefRegistry::new();
    registry.register("test_def".to_owned(), sum_def());

    let node = Node {
        id: 1,
        def_name: "test_def".to_string(),
        inputs: vec![
            NodeInput::Const(NodeValue::Count(1)),
            NodeInput::Wire(NodeOutputRef { from_node_id: 2, node_output_index: 0 }),
        ],
    };
    let mut map = ResultStore::new();
    map.insert(NodeOutputRef { from_node_id: 2, node_output_index: 0 }, NodeValue::Count(2));
    let result = node.with_registry(&registry).evaluate(&map, &None);
    assert_eq!(result.len(), 1);
    assert_eq!(result[0], NodeValue::Count(3));
}

#[test]
fn evaluates_executor_and_output_device() {
    let mut registry = NodeDefRegistry::new();
    registry.register(
        "double".to_owned(),
        NodeDef {
            desc: description("double"),
            inputs: count_inputs(&["count"]),
            outputs: count_outputs(1),
            runner: NodeDefRunner::Executor(Box::new(DoublerFactory)),
        },
    );
    registry.register(
        "swallow".to_owned(),
        NodeDef {
            desc: description("swallow"),
            inputs: count_inputs(&["count"]),
            outputs: vec![],
            runner: NodeDefRunner::OutputDevice(NodeDefOutputRunner {
                run: Box::new(Swallow),
                device: OutputDevice { name: "nowhere".to_string() },
            }),
        },
    );
    registry.register("sum".to_owned(), sum_def());
    let store = ResultStore::new();

    let doubled = Node {
        id: 1,
        def_name: "double".to_string(),
        inputs: vec![NodeInput::Const(NodeValue::Count(21))],
    };
    let bound = doubled.with_registry(&registry);
    assert_eq!(bound.get_input_count(), 1);
    assert_eq!(bound.get_output_count(), 1);
    let executor = bound.prepare(&vec![true]);
    assert!(executor.is_some());
    assert_eq!(bound.evaluate(&store, &executor), vec![NodeValue::Count(42)]);

    let swallowed = Node {
        id: 2,
        def_name: "swallow".to_string(),
        inputs: vec![NodeInput::Const(NodeValue::Count(21))],
    };
    let bound = swallowed.with_registry(&registry);
    assert_eq!(bound.get_input_count(), 1);
    assert_eq!(bound.get_output_count(), 0);
    assert!(bound.prepare(&vec![]).is_none());
    assert_eq!(bound.evaluate(&store, &None), vec![]);

    let summed = Node {
        id: 3,
        def_name: "sum".to_string(),
        inputs: vec![NodeInput::Const(NodeValue::Count(2)), NodeInput::Const(NodeValue::Count(3))],
    };
    let bound = summed.with_registry(&registry);
    assert_eq!(bound.get_input_count(), 2);
    assert!(bound.prepare(&vec![false]).is_none());
    assert_eq!(bound.evaluate(&store, &None), vec![NodeValue::Count(5)]);
    assert_eq!(
        registry.get_def(&"sum".to_string()).run(
            &None,
            vec![&NodeValue::Count(30), &NodeValue::Count(12)]
        ),
        vec![NodeValue::Count(42)]
    );
}

#[test]
fn inputs_are_read_in_their_order() {
    let node = Node {
        id: 9,
        def_name: "any".to_string(),
        inputs: vec![
            NodeInput::Wire(NodeOutputRef { from_node_id: 4, node_output_index: 1 }),
            NodeInput::Const(NodeValue::Toggle(true)),
            NodeInput::Wire(NodeOutputRef { from_node_id: 4, node_output_index: 0 }),
            NodeInput::Wire(NodeOutputRef { from_node_id: 7, node_output_index: 0 }),
        ],
    };
    assert_eq!(
        node.wires(),
        vec![
            NodeOutputRef { from_node_id: 4, node_output_index: 1 },
            NodeOutputRef { from_node_id: 4, node_output_index: 0 },
            NodeOutputRef { from_node_id: 7, node_output_index: 0 },
        ]
    );

    let mut store = ResultStore::new();
    store.insert(NodeOutputRef { from_node_id: 4, node_output_index: 0 }, NodeValue::Count(40));
    assert_eq!(
        node.missing_input(&store),
        Some(NodeOutputRef { from_node_id: 4, node_output_index: 1 })
    );
    store.insert(NodeOutputRef { from_node_id: 4, node_output_index: 1 }, NodeValue::Count(41));
    assert_eq!(
        node.missing_input(&store),
        Some(NodeOutputRef { from_node_id: 7, node_output_index: 0 })
    );
    store.insert(
        NodeOutputRef { from_node_id: 7, node_output_index: 0 },
        NodeValue::Text(Box::new("seven".to_string())),
    );
    assert_eq!(node.missing_input(&store), None);
    assert_eq!(
        node.input_values(&store),
        vec![
            &NodeValue::Count(41),
            &NodeValue::Toggle(true),
            &NodeValue::Count(40),
            &NodeValue::Text(Box::new("seven".to_string())),
        ]
    );

    let constant = Node { id: 1, def_name: "any".to_string(), inputs: vec![] };
    assert_eq!(constant.missing_input(&ResultStore::new()), None);
    assert!(constant.input_values(&ResultStore::new()).is_empty());
    assert!(constant.wires().is_empty());
}

#[test]
fn runners_are_called_with_what_they_are_given() {
    assert_eq!(
        run_function(&Sum, vec![&NodeValue::Count(2), &NodeValue::Count(40)]),
        vec![NodeValue::Count(42)]
    );
    run_output_function(&Swallow, vec![&NodeValue::Count(2)]);
    let executor = create_executor(&DoublerFactory).0;
    prepare_executor(&*executor, &vec![true]);
    assert_eq!(run_executor(&*executor, vec![&NodeValue::Count(8)]), vec![NodeValue::Count(16)]);
}
