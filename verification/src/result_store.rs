use std::collections::HashMap;
use vstd::prelude::*;
use vstd::std_specs::hash::*;
use crate::node_value::NodeValue;

verus! {

broadcast use group_hash_axioms;

/// Names one output of one node: the node that produces it and the position of the output
/// among that node's outputs.
#[derive(Debug, PartialEq, Eq, Structural, Hash, Clone, Copy)]
pub struct NodeOutputRef {
    pub from_node_id: u32,
    pub node_output_index: u8,
}

/// The number under which an output is filed: the node in the high bits, the output's
/// position in the low eight.
pub open spec fn packed_key(output: NodeOutputRef) -> u64 {
    (output.from_node_id as u64 * 256 + output.node_output_index as u64) as u64
}

/// Two outputs filed under one number are one output.
pub proof fn lemma_packed_key_injective(a: NodeOutputRef, b: NodeOutputRef)
    requires
        packed_key(a) == packed_key(b),
    ensures
        a == b,
{
}

/// The output that is filed under a number.
pub open spec fn unpacked_key(key: u64) -> NodeOutputRef {
    NodeOutputRef { from_node_id: (key / 256) as u32, node_output_index: (key % 256) as u8 }
}

/// The values that the nodes of a graph have produced, by output.
pub struct ResultStore {
    values: HashMap<u64, NodeValue>,
}

impl View for ResultStore {
    type V = Map<NodeOutputRef, NodeValue>;

    closed spec fn view(&self) -> Map<NodeOutputRef, NodeValue> {
        Map::new(
            |output: NodeOutputRef| self.values@.contains_key(packed_key(output)),
            |output: NodeOutputRef| self.values@[packed_key(output)],
        )
    }
}

impl ResultStore {
    /// Every value of the store is filed under the number of an output. The stores that
    /// this library makes are sound, and stay so.
    pub closed spec fn wf(&self) -> bool {
        forall|key: u64| #[trigger] self.values@.contains_key(key) ==> key < 0x100_0000_0000
    }

    fn key(output: &NodeOutputRef) -> (key: u64)
        ensures
            key == packed_key(*output),
            key < 0x100_0000_0000,
            unpacked_key(key) == *output,
    {
        output.from_node_id as u64 * 256 + output.node_output_index as u64
    }

    /// A store that holds nothing.
    pub fn new() -> (store: ResultStore)
        ensures
            store.wf(),
            store@ == Map::<NodeOutputRef, NodeValue>::empty(),
    {
        let store = ResultStore { values: HashMap::new() };
        assert(store@ =~= Map::<NodeOutputRef, NodeValue>::empty());
        store
    }

    /// Files a value under an output, and hands back the value that was filed there before.
    pub fn insert(&mut self, output: NodeOutputRef, value: NodeValue) -> (previous: Option<
        NodeValue,
    >)
        ensures
            old(self).wf() ==> final(self).wf(),
            final(self)@ == old(self)@.insert(output, value),
            match previous {
                Some(v) => old(self)@.contains_key(output) && v == old(self)@[output],
                None => !old(self)@.contains_key(output),
            },
    {
        let key = Self::key(&output);
        let ghost before = *self;
        let previous = self.values.insert(key, value);
        proof {
            assert forall|other: NodeOutputRef| other != output implies packed_key(other)
                != key by {
                if packed_key(other) == key {
                    lemma_packed_key_injective(other, output);
                }
            }
            assert(self@ =~= before@.insert(output, value));
        }
        previous
    }

    /// Whether a value is filed under an output.
    pub fn contains(&self, output: &NodeOutputRef) -> (found: bool)
        ensures
            found == self@.contains_key(*output),
    {
        let key = Self::key(output);
        self.values.contains_key(&key)
    }

    /// The outputs that the store holds a value for, each once, in no order.
    pub fn outputs(&self) -> (outputs: Vec<NodeOutputRef>)
        requires
            self.wf(),
        ensures
            outputs@.no_duplicates(),
            outputs@.to_set() == self@.dom(),
    {
        let mut outputs: Vec<NodeOutputRef> = Vec::with_capacity(self.values.len());
        for key in iter: self.values.keys()
            invariant
                self.wf(),
                iter.seq().unref().to_set() == self.values@.dom(),
                iter.seq().no_duplicates(),
                outputs@.len() == iter.index(),
                forall|i: int|
                    0 <= i < iter.index() ==> #[trigger] outputs@[i] == unpacked_key(
                        *iter.seq()[i],
                    ),
            ensures
                outputs@.len() == iter.seq().len(),
                forall|i: int|
                    0 <= i < outputs@.len() ==> #[trigger] outputs@[i] == unpacked_key(
                        *iter.seq()[i],
                    ),
                iter.seq().unref().to_set() == self.values@.dom(),
                iter.seq().no_duplicates(),
        {
            let from_node_id = (*key / 256) as u32;
            let node_output_index = (*key % 256) as u8;
            assert(iter.seq().unref().to_set().contains(*key));
            outputs.push(NodeOutputRef { from_node_id, node_output_index });
        }
        proof {
            let keys = choose|keys: Seq<u64>|
                keys.no_duplicates() && keys.to_set() == self.values@.dom() && keys.len()
                    == outputs@.len() && forall|i: int|
                    0 <= i < outputs@.len() ==> #[trigger] outputs@[i] == unpacked_key(keys[i]);
            assert forall|i: int| 0 <= i < keys.len() implies packed_key(#[trigger] outputs@[i])
                == keys[i] by {
                assert(keys.to_set().contains(keys[i]));
            }
            assert forall|i: int, j: int| 0 <= i < j < outputs@.len() implies outputs@[i]
                != outputs@[j] by {
                assert(packed_key(outputs@[i]) == keys[i]);
                assert(packed_key(outputs@[j]) == keys[j]);
            }
            assert forall|output: NodeOutputRef|
                outputs@.to_set().contains(output) <==> self@.dom().contains(output) by {
                if outputs@.contains(output) {
                    let i = choose|i: int| 0 <= i < outputs@.len() && outputs@[i] == output;
                    assert(packed_key(outputs@[i]) == keys[i]);
                    assert(keys.to_set().contains(keys[i]));
                }
                if self@.dom().contains(output) {
                    assert(keys.to_set().contains(packed_key(output)));
                    let i = choose|i: int| 0 <= i < keys.len() && keys[i] == packed_key(output);
                    assert(packed_key(outputs@[i]) == keys[i]);
                    lemma_packed_key_injective(outputs@[i], output);
                }
            }
            assert(outputs@.to_set() =~= self@.dom());
        }
        outputs
    }

    /// The value filed under an output.
    pub fn get(&self, output: &NodeOutputRef) -> (value: Option<&NodeValue>)
        ensures
            match value {
                Some(v) => self@.contains_key(*output) && *v == self@[*output],
                None => !self@.contains_key(*output),
            },
    {
        let key = Self::key(output);
        self.values.get(&key)
    }
}

/// The store that holds what the nodes produced and nothing else: the value at position
/// `j` of what node `v` produced stands under output `j` of `v`. An output's position is
/// below 256, so of more values than that only the first 256 are stored.
pub open spec fn stored_outputs(produced: Map<u32, Seq<NodeValue>>) -> Map<NodeOutputRef, NodeValue> {
    Map::new(
        |output: NodeOutputRef|
            produced.contains_key(output.from_node_id) && output.node_output_index
                < produced[output.from_node_id].len(),
        |output: NodeOutputRef| produced[output.from_node_id][output.node_output_index as int],
    )
}

/// What the nodes of a wave produced, by node: `results[i]` is what `wave[i]` produced.
pub open spec fn wave_outputs(wave: Seq<u32>, results: Seq<Vec<NodeValue>>) -> Map<
    u32,
    Seq<NodeValue>,
> {
    Map::new(|v: u32| wave.contains(v), |v: u32| results[wave.index_of(v)]@)
}

/// Files what the nodes of a wave produced: each value under its node and its position.
/// Nothing else in the store changes.
pub fn publish_wave(store: &mut ResultStore, wave: &Vec<u32>, results: Vec<Vec<NodeValue>>)
    requires
        wave@.no_duplicates(),
        results@.len() == wave@.len(),
    ensures
        old(store).wf() ==> final(store).wf(),
        final(store)@ == old(store)@.union_prefer_right(
            stored_outputs(wave_outputs(wave@, results@)),
        ),
{
    let ghost before = store@;
    let ghost all = results@;
    let ghost target = stored_outputs(wave_outputs(wave@, all));
    let mut results = results;
    assert forall|i: int| 0 <= i < wave@.len() implies wave@.index_of(#[trigger] wave@[i]) == i by {}
    while results.len() > 0
        invariant
            old(store).wf() ==> store.wf(),
            wave@.no_duplicates(),
            all.len() == wave@.len(),
            target == stored_outputs(wave_outputs(wave@, all)),
            results@.len() <= all.len(),
            results@ == all.take(results@.len() as int),
            forall|i: int| 0 <= i < wave@.len() ==> wave@.index_of(#[trigger] wave@[i]) == i,
            forall|output: NodeOutputRef|
                store@.contains_key(output) <==> before.contains_key(output) || (exists|i: int|
                    results@.len() <= i < all.len() && wave@[i] == output.from_node_id
                        && output.node_output_index < all[i]@.len()),
            forall|output: NodeOutputRef|
                #![trigger store@[output]]
                store@.contains_key(output) ==> store@[output] == (if exists|i: int|
                    results@.len() <= i < all.len() && wave@[i] == output.from_node_id
                        && output.node_output_index < all[i]@.len() {
                    target[output]
                } else {
                    before[output]
                }),
        decreases results.len(),
    {
        let ghost start = store@;
        let ghost remaining = results@.len();
        let mut outputs = results.pop().unwrap();
        let i = results.len();
        let node_id = wave[i];
        let ghost produced = outputs@;
        assert(produced == all[i as int]@);
        assert(wave@.contains(node_id));
        while outputs.len() > 0
            invariant
                old(store).wf() ==> store.wf(),
                outputs@.len() <= produced.len(),
                outputs@ == produced.take(outputs@.len() as int),
                forall|output: NodeOutputRef|
                    store@.contains_key(output) <==> start.contains_key(output) || (
                    output.from_node_id == node_id && outputs@.len() <= output.node_output_index
                        < produced.len()),
                forall|output: NodeOutputRef|
                    #![trigger store@[output]]
                    store@.contains_key(output) ==> store@[output] == (if output.from_node_id
                        == node_id && outputs@.len() <= output.node_output_index < produced.len() {
                        produced[output.node_output_index as int]
                    } else {
                        start[output]
                    }),
            decreases outputs.len(),
        {
            let value = outputs.pop().unwrap();
            let j = outputs.len();
            if j < 256 {
                store.insert(NodeOutputRef { from_node_id: node_id, node_output_index: j as u8 }, value);
            }
        }
        proof {
            assert(outputs@.len() == 0);
            assert(remaining == i + 1);
            assert forall|output: NodeOutputRef| store@.contains_key(output) implies before.contains_key(
                output,
            ) || (exists|a: int|
                i <= a < all.len() && wave@[a] == output.from_node_id && output.node_output_index
                    < all[a]@.len()) by {
                if start.contains_key(output) {
                    if !before.contains_key(output) {
                        let a = choose|a: int|
                            remaining <= a < all.len() && wave@[a] == output.from_node_id
                                && output.node_output_index < all[a]@.len();
                        assert(i <= a < all.len() && wave@[a] == output.from_node_id
                            && output.node_output_index < all[a]@.len());
                    }
                } else {
                    assert(output.from_node_id == node_id && output.node_output_index
                        < produced.len());
                    assert(i <= i < all.len() && wave@[i as int] == output.from_node_id
                        && output.node_output_index < all[i as int]@.len());
                }
            }
            assert forall|output: NodeOutputRef|
                before.contains_key(output) || (exists|a: int|
                    i <= a < all.len() && wave@[a] == output.from_node_id
                        && output.node_output_index < all[a]@.len()) implies store@.contains_key(
                output,
            ) by {
                if before.contains_key(output) {
                    assert(start.contains_key(output));
                } else {
                    let a = choose|a: int|
                        i <= a < all.len() && wave@[a] == output.from_node_id
                            && output.node_output_index < all[a]@.len();
                    if a != i {
                        assert(remaining <= a < all.len() && wave@[a] == output.from_node_id
                            && output.node_output_index < all[a]@.len());
                        assert(start.contains_key(output));
                    } else {
                        assert(output.from_node_id == node_id && 0 <= output.node_output_index
                            < produced.len());
                    }
                }
            }
            assert forall|output: NodeOutputRef|
                #![trigger store@[output]]
                store@.contains_key(output) implies store@[output] == (if exists|a: int|
                    i <= a < all.len() && wave@[a] == output.from_node_id
                        && output.node_output_index < all[a]@.len() {
                    target[output]
                } else {
                    before[output]
                }) by {
                if output.from_node_id == node_id && output.node_output_index < produced.len() {
                    assert(i <= i < all.len() && wave@[i as int] == output.from_node_id
                        && output.node_output_index < all[i as int]@.len());
                    assert(wave@.index_of(wave@[i as int]) == i);
                } else {
                    assert(store@[output] == start[output]);
                    if exists|a: int|
                        i <= a < all.len() && wave@[a] == output.from_node_id
                            && output.node_output_index < all[a]@.len() {
                        let a = choose|a: int|
                            i <= a < all.len() && wave@[a] == output.from_node_id
                                && output.node_output_index < all[a]@.len();
                        assert(a != i);
                        assert(remaining <= a < all.len());
                    } else {
                        if exists|a: int|
                            remaining <= a < all.len() && wave@[a] == output.from_node_id
                                && output.node_output_index < all[a]@.len() {
                            let a = choose|a: int|
                                remaining <= a < all.len() && wave@[a] == output.from_node_id
                                    && output.node_output_index < all[a]@.len();
                            assert(i <= a < all.len());
                        }
                    }
                }
            }
        }
    }
    proof {
        let joined = before.union_prefer_right(target);
        let produced = wave_outputs(wave@, all);
        assert(results@.len() == 0);
        assert forall|output: NodeOutputRef| target.contains_key(output) <==> (exists|a: int|
            0 <= a < all.len() && wave@[a] == output.from_node_id && output.node_output_index
                < all[a]@.len()) by {
            if target.contains_key(output) {
                assert(wave@.contains(output.from_node_id));
                let a = wave@.index_of(output.from_node_id);
                assert(0 <= a < all.len() && wave@[a] == output.from_node_id
                    && output.node_output_index < all[a]@.len());
            }
            if exists|a: int|
                0 <= a < all.len() && wave@[a] == output.from_node_id && output.node_output_index
                    < all[a]@.len() {
                let a = choose|a: int|
                    0 <= a < all.len() && wave@[a] == output.from_node_id
                        && output.node_output_index < all[a]@.len();
                assert(wave@.contains(wave@[a]));
                assert(wave@.index_of(wave@[a]) == a);
                assert(produced.contains_key(output.from_node_id));
            }
        }
        assert forall|output: NodeOutputRef| store@.contains_key(output) implies store@[output]
            == joined[output] by {
            if target.contains_key(output) {
                assert(exists|a: int|
                    0 <= a < all.len() && wave@[a] == output.from_node_id
                        && output.node_output_index < all[a]@.len());
            }
        }
        assert(store@ =~= joined);
    }
}

} // verus!
