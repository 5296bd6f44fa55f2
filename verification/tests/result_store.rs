use proton::node_value::{NodeValue, NodeValueType};
use proton::result_store::{publish_wave, NodeOutputRef, ResultStore};

fn output(from_node_id: u32, node_output_index: u8) -> NodeOutputRef {
    NodeOutputRef { from_node_id, node_output_index }
}

#[test]
fn store_files_values_by_node_and_position() {
    let mut store = ResultStore::new();
    assert!(!store.contains(&output(0, 0)));
    assert_eq!(store.get(&output(0, 0)), None);
    assert_eq!(store.insert(output(1, 0), NodeValue::Count(10)), None);
    assert_eq!(store.insert(output(0, 1), NodeValue::Count(1)), None);
    assert_eq!(store.insert(output(1, 255), NodeValue::Count(1255)), None);
    assert_eq!(store.insert(output(2, 0), NodeValue::Count(20)), None);
    assert_eq!(store.insert(output(u32::MAX, 255), NodeValue::Toggle(true)), None);
    assert_eq!(store.get(&output(1, 0)), Some(&NodeValue::Count(10)));
    assert_eq!(store.get(&output(0, 1)), Some(&NodeValue::Count(1)));
    assert_eq!(store.get(&output(1, 255)), Some(&NodeValue::Count(1255)));
    assert_eq!(store.get(&output(2, 0)), Some(&NodeValue::Count(20)));
    assert_eq!(store.get(&output(u32::MAX, 255)), Some(&NodeValue::Toggle(true)));
    assert!(!store.contains(&output(0, 0)));
    assert!(!store.contains(&output(1, 1)));
    assert!(!store.contains(&output(256, 0)));
    assert_eq!(store.insert(output(1, 0), NodeValue::Count(11)), Some(NodeValue::Count(10)));
    assert_eq!(store.get(&output(1, 0)), Some(&NodeValue::Count(11)));
}

#[test]
fn wave_is_published_by_node_and_position() {
    let mut store = ResultStore::new();
    store.insert(output(1, 0), NodeValue::Count(1));
    publish_wave(
        &mut store,
        &vec![5, 3, 8],
        vec![
            vec![NodeValue::Count(50), NodeValue::Count(51)],
            vec![],
            vec![NodeValue::Trigger()],
        ],
    );
    assert_eq!(store.get(&output(1, 0)), Some(&NodeValue::Count(1)));
    assert_eq!(store.get(&output(5, 0)), Some(&NodeValue::Count(50)));
    assert_eq!(store.get(&output(5, 1)), Some(&NodeValue::Count(51)));
    assert_eq!(store.get(&output(5, 2)), None);
    assert_eq!(store.get(&output(3, 0)), None);
    assert_eq!(store.get(&output(8, 0)), Some(&NodeValue::Trigger()));
    assert_eq!(store.get(&output(8, 1)), None);

    publish_wave(&mut store, &vec![], vec![]);
    assert_eq!(store.get(&output(5, 1)), Some(&NodeValue::Count(51)));
}

#[test]
fn only_the_first_256_outputs_are_stored() {
    let mut store = ResultStore::new();
    let produced: Vec<NodeValue> = (0..300).map(NodeValue::Count).collect();
    publish_wave(&mut store, &vec![7], vec![produced]);
    for index in 0..=255u8 {
        assert_eq!(store.get(&output(7, index)), Some(&NodeValue::Count(index as i64)));
    }
    assert!(!store.contains(&output(8, 0)));
    assert!(!store.contains(&output(8, 44)));
}

#[test]
fn values_name_their_kind() {
    assert_eq!(NodeValue::Trigger().value_type(), NodeValueType::Trigger);
    assert_eq!(NodeValue::Toggle(false).value_type(), NodeValueType::Toggle);
    assert_eq!(NodeValue::Count(-3).value_type(), NodeValueType::Count);
    assert_eq!(NodeValue::ConstrainedMagnitude(7).value_type(), NodeValueType::ConstrainedMagnitude);
    assert_eq!(
        NodeValue::UnconstrainedMagnitude(1.5f64.to_bits()).value_type(),
        NodeValueType::UnconstrainedMagnitude
    );
    assert_eq!(NodeValue::Color((1, 2, 3, 4)).value_type(), NodeValueType::Color);
    assert_eq!(NodeValue::Text(Box::new("t".to_string())).value_type(), NodeValueType::Text);
    assert_eq!(NodeValue::Bitmap1D(Box::new(vec![])).value_type(), NodeValueType::Bitmap1D);
    assert_eq!(NodeValue::Bitmap2D(Box::new(vec![])).value_type(), NodeValueType::Bitmap2D);
    assert_eq!(NodeValue::Shader1D(1).value_type(), NodeValueType::Shader1D);
    assert_eq!(NodeValue::Shader2D(2).value_type(), NodeValueType::Shader2D);
    assert_eq!(NodeValue::Shader3D(3).value_type(), NodeValueType::Shader3D);
}

#[test]
fn clones_of_values_are_equal_to_them() {
    let values = vec![
        NodeValue::Trigger(),
        NodeValue::Toggle(true),
        NodeValue::Count(i64::MIN),
        NodeValue::ConstrainedMagnitude(u32::MAX),
        NodeValue::UnconstrainedMagnitude((-0.25f64).to_bits()),
        NodeValue::Color((1, 2, 3, 65535)),
        NodeValue::Text(Box::new("some text".to_string())),
        NodeValue::Bitmap1D(Box::new(vec![(1, 2, 3, 4), (5, 6, 7, 8)])),
        NodeValue::Bitmap2D(Box::new(vec![vec![(1, 2, 3, 4)], vec![], vec![(5, 6, 7, 8), (9, 9, 9, 9)]])),
        NodeValue::Shader1D(1),
        NodeValue::Shader2D(2),
        NodeValue::Shader3D(3),
    ];
    for value in &values {
        assert_eq!(&value.clone(), value);
    }
    assert_ne!(NodeValue::Shader1D(1), NodeValue::Shader2D(1));
    assert_ne!(NodeValue::Count(1), NodeValue::Count(2));
    assert_ne!(
        NodeValue::UnconstrainedMagnitude(0.5f64.to_bits()),
        NodeValue::UnconstrainedMagnitude(1.5f64.to_bits())
    );
}

#[test]
fn store_lists_its_outputs_once_each() {
    let mut store = ResultStore::new();
    assert!(store.outputs().is_empty());
    store.insert(output(3, 1), NodeValue::Count(31));
    store.insert(output(0, 0), NodeValue::Count(0));
    store.insert(output(u32::MAX, 255), NodeValue::Count(-1));
    store.insert(output(3, 0), NodeValue::Count(30));
    store.insert(output(3, 1), NodeValue::Count(32));
    let mut outputs: Vec<(u32, u8)> = store
        .outputs()
        .into_iter()
        .map(|listed| (listed.from_node_id, listed.node_output_index))
        .collect();
    outputs.sort();
    assert_eq!(outputs, vec![(0, 0), (3, 0), (3, 1), (u32::MAX, 255)]);
}
