use std::collections::HashMap;
use std::collections::HashSet;
use vstd::prelude::*;
use vstd::std_specs::hash::*;
use vstd::set_lib::*;
use crate::layering::{
    deps_closed, is_layering, lemma_placed_are_nodes, lemma_placed_step,
    lemma_stuck_not_schedulable, placed_before, ready, schedulable, wave_set,
};

verus! {

broadcast use group_hash_axioms;

/// One element more of a sequence is one element more among its elements.
pub proof fn lemma_take_next<T>(s: Seq<T>, i: int)
    requires
        0 <= i < s.len(),
    ensures
        s.take(i + 1) == s.take(i).push(s[i]),
        s.take(i + 1).to_set() == s.take(i).to_set().insert(s[i]),
        forall|x: T| s.take(i + 1).contains(x) <==> s.take(i).contains(x) || x == s[i],
{
    let longer = s.take(i + 1);
    let shorter = s.take(i);
    assert(longer =~= shorter.push(s[i]));
    assert forall|x: T| longer.contains(x) <==> shorter.contains(x) || x == s[i] by {
        if shorter.contains(x) {
            let b = choose|b: int| 0 <= b < shorter.len() && shorter[b] == x;
            assert(longer[b] == x);
        }
        if x == s[i] {
            assert(longer[i] == x);
        }
        if longer.contains(x) {
            let b = choose|b: int| 0 <= b < longer.len() && longer[b] == x;
            if b < i {
                assert(shorter[b] == x);
            }
        }
    }
    assert(longer.to_set() =~= shorter.to_set().insert(s[i]));
}

/// The keys of a map, each once, in the order in which the map walks them.
pub fn keys_of<V>(map: &HashMap<u32, V>) -> (keys: Vec<u32>)
    ensures
        keys@.no_duplicates(),
        keys@.to_set() == map@.dom(),
{
    let mut keys: Vec<u32> = Vec::new();
    for key in iter: map.keys()
        invariant
            keys@ == iter.seq().unref().take(iter.index()),
            iter.seq().unref().to_set() == map@.dom(),
            iter.seq().no_duplicates(),
        ensures
            keys@ == iter.seq().unref(),
    {
        keys.push(*key);
        assert(keys@ =~= iter.seq().unref().take(iter.index() + 1));
    }
    keys
}

/// The dependency sets that a map of dependency lists stands for.
pub open spec fn deps_view(deps: Map<u32, Vec<u32>>) -> Map<u32, Set<u32>> {
    Map::new(|v: u32| deps.contains_key(v), |v: u32| deps[v]@.to_set())
}

/// The waves as sequences of node ids.
pub open spec fn wave_seqs(waves: Seq<Vec<u32>>) -> Seq<Seq<u32>> {
    Seq::new(waves.len(), |k: int| waves[k]@)
}

/// Looks for a node that depends on something that is no node. `Some((from, missing))`
/// names such a node and what it depends on; `None` says that there is none.
pub fn find_invalid_wire(deps: &HashMap<u32, Vec<u32>>) -> (invalid: Option<(u32, u32)>)
    ensures
        match invalid {
            Some((from, missing)) => deps@.contains_key(from) && deps@[from]@.contains(missing)
                && !deps@.contains_key(missing),
            None => deps_closed(deps_view(deps@)),
        },
{
    let ids = keys_of(deps);
    let mut i: usize = 0;
    while i < ids.len()
        invariant
            i <= ids.len(),
            ids@.to_set() == deps@.dom(),
            forall|a: int, d: u32|
                0 <= a < i && #[trigger] deps@[ids@[a]]@.contains(d) ==> deps@.contains_key(d),
        decreases ids.len() - i,
    {
        let from = ids[i];
        assert(ids@.to_set().contains(from));
        let wanted = deps.get(&from).unwrap();
        let mut j: usize = 0;
        while j < wanted.len()
            invariant
                j <= wanted.len(),
                deps@.contains_key(from),
                *wanted == deps@[from],
                forall|b: int| 0 <= b < j ==> deps@.contains_key(#[trigger] wanted@[b]),
            decreases wanted.len() - j,
        {
            let d = wanted[j];
            if !deps.contains_key(&d) {
                assert(wanted@[j as int] == d);
                return Some((from, d));
            }
            j += 1;
        }
        assert forall|d: u32| #[trigger] deps@[ids@[i as int]]@.contains(d) implies deps@.contains_key(
            d,
        ) by {
            let b = choose|b: int| 0 <= b < wanted@.len() && wanted@[b] == d;
            assert(deps@.contains_key(wanted@[b]));
        }
        i += 1;
    }
    proof {
        let dv = deps_view(deps@);
        assert forall|v: u32, d: u32|
            dv.contains_key(v) && #[trigger] dv[v].contains(d) implies dv.contains_key(d) by {
            assert(ids@.to_set().contains(v));
            let a = choose|a: int| 0 <= a < ids@.len() && ids@[a] == v;
            assert(deps@[ids@[a]]@.contains(d));
        }
    }
    None
}

/// Whether all of `wanted` is in `placed`.
fn all_placed(wanted: &Vec<u32>, placed: &HashSet<u32>) -> (all: bool)
    ensures
        all == wanted@.to_set().subset_of(placed@),
{
    let mut j: usize = 0;
    while j < wanted.len()
        invariant
            j <= wanted.len(),
            forall|b: int| 0 <= b < j ==> placed@.contains(#[trigger] wanted@[b]),
        decreases wanted.len() - j,
    {
        if !placed.contains(&wanted[j]) {
            assert(wanted@.to_set().contains(wanted@[j as int]));
            return false;
        }
        j += 1;
    }
    true
}

/// The wave that follows the nodes of `placed`: every node that is not placed yet and
/// depends on placed nodes only, in the order of `ids`.
fn next_wave(deps: &HashMap<u32, Vec<u32>>, ids: &Vec<u32>, placed: &HashSet<u32>) -> (wave: Vec<
    u32,
>)
    requires
        ids@.no_duplicates(),
        ids@.to_set() == deps@.dom(),
    ensures
        wave@.no_duplicates(),
        wave@.to_set() == Set::new(
            |v: u32| !placed@.contains(v) && ready(deps_view(deps@), v, placed@),
        ),
        wave@.len() <= ids@.len(),
{
    let ghost dv = deps_view(deps@);
    let mut wave: Vec<u32> = Vec::new();
    let mut i: usize = 0;
    while i < ids.len()
        invariant
            i <= ids.len(),
            ids@.no_duplicates(),
            ids@.to_set() == deps@.dom(),
            dv == deps_view(deps@),
            wave@.no_duplicates(),
            wave@.len() <= i,
            forall|v: u32|
                wave@.contains(v) <==> (exists|a: int| 0 <= a < i && ids@[a] == v)
                    && !placed@.contains(v) && ready(dv, v, placed@),
        decreases ids.len() - i,
    {
        let id = ids[i];
        assert(ids@.to_set().contains(id));
        let ghost before = wave@;
        let mut taken = false;
        if !placed.contains(&id) {
            let wanted = deps.get(&id).unwrap();
            if all_placed(wanted, placed) {
                wave.push(id);
                taken = true;
            }
        }
        proof {
            if taken {
                assert(wave@ == before.push(id));
                assert(!before.contains(id)) by {
                    if before.contains(id) {
                        let a = choose|a: int| 0 <= a < i && ids@[a] == id;
                        assert(ids@[a] == ids@[i as int]);
                    }
                }
                assert forall|v: u32| wave@.contains(v) <==> (exists|a: int|
                    0 <= a < i + 1 && ids@[a] == v) && !placed@.contains(v) && ready(
                    dv,
                    v,
                    placed@,
                ) by {
                    if wave@.contains(v) {
                        let b = choose|b: int| 0 <= b < wave@.len() && wave@[b] == v;
                        if b < before.len() {
                            assert(before[b] == v);
                            assert(before.contains(v));
                            let a = choose|a: int| 0 <= a < i && ids@[a] == v;
                            assert(0 <= a < i + 1 && ids@[a] == v);
                        } else {
                            assert(ids@[i as int] == v);
                        }
                    }
                    if (exists|a: int| 0 <= a < i + 1 && ids@[a] == v) && !placed@.contains(v)
                        && ready(dv, v, placed@) {
                        let a = choose|a: int| 0 <= a < i + 1 && ids@[a] == v;
                        if a < i {
                            assert(before.contains(v));
                            let b = choose|b: int| 0 <= b < before.len() && before[b] == v;
                            assert(wave@[b] == v);
                        } else {
                            assert(wave@[before.len() as int] == v);
                        }
                    }
                }
            } else {
                assert forall|v: u32| wave@.contains(v) <==> (exists|a: int|
                    0 <= a < i + 1 && ids@[a] == v) && !placed@.contains(v) && ready(
                    dv,
                    v,
                    placed@,
                ) by {
                    if wave@.contains(v) {
                        let a = choose|a: int| 0 <= a < i && ids@[a] == v;
                        assert(0 <= a < i + 1 && ids@[a] == v);
                    }
                    if (exists|a: int| 0 <= a < i + 1 && ids@[a] == v) && !placed@.contains(v)
                        && ready(dv, v, placed@) {
                        let a = choose|a: int| 0 <= a < i + 1 && ids@[a] == v;
                        assert(a < i);
                    }
                }
            }
        }
        i += 1;
    }
    proof {
        let target = Set::new(|v: u32| !placed@.contains(v) && ready(dv, v, placed@));
        assert forall|v: u32| wave@.to_set().contains(v) <==> target.contains(v) by {
            if target.contains(v) {
                assert(ids@.to_set().contains(v));
                let a = choose|a: int| 0 <= a < ids@.len() && ids@[a] == v;
                assert(0 <= a < i && ids@[a] == v);
            }
        }
        assert(wave@.to_set() =~= target);
    }
    wave
}

/// Layers a graph into waves. Each wave holds every node not yet placed whose dependencies
/// all lie in earlier waves, so the waves are as few and as wide as can be. `None` says
/// that some nodes can never be placed: the graph holds a cycle, or a node depends on
/// something that is no node.
pub fn layer_waves(deps: &HashMap<u32, Vec<u32>>) -> (layered: Option<Vec<Vec<u32>>>)
    ensures
        match layered {
            Some(waves) => is_layering(deps_view(deps@), wave_seqs(waves@)),
            None => !schedulable(deps_view(deps@)),
        },
{
    let ghost dv = deps_view(deps@);
    let ids = keys_of(deps);
    let mut placed: HashSet<u32> = HashSet::new();
    let mut waves: Vec<Vec<u32>> = Vec::new();
    proof {
        ids@.unique_seq_to_set();
        assert(dv.dom() =~= deps@.dom());
    }
    while placed.len() < ids.len()
        invariant
            dv == deps_view(deps@),
            dv.dom() == deps@.dom(),
            ids@.no_duplicates(),
            ids@.to_set() == deps@.dom(),
            ids@.len() == deps@.dom().len(),
            placed@ == placed_before(dv, waves@.len()),
            placed@.len() <= ids@.len(),
            forall|k: int|
                0 <= k < waves@.len() ==> {
                    &&& (#[trigger] waves@[k])@.no_duplicates()
                    &&& waves@[k]@.to_set() == wave_set(dv, k as nat)
                    &&& waves@[k]@.len() > 0
                },
        decreases ids@.len() - placed@.len(),
    {
        let ghost k = waves@.len();
        let ghost earlier = placed@;
        let wave = next_wave(deps, &ids, &placed);
        assert(wave@.to_set() =~= wave_set(dv, k));
        if wave.len() == 0 {
            proof {
                assert(wave_set(dv, k) =~= Set::<u32>::empty()) by {
                    assert forall|v: u32| !wave_set(dv, k).contains(v) by {
                        if wave_set(dv, k).contains(v) {
                            assert(wave@.to_set().contains(v));
                            assert(wave@.contains(v));
                        }
                    }
                }
                if placed@ == dv.dom() {
                    assert(placed@.len() == ids@.len());
                }
                lemma_stuck_not_schedulable(dv, k);
            }
            return None;
        }
        let mut i: usize = 0;
        while i < wave.len()
            invariant
                i <= wave.len(),
                placed@ == earlier.union(wave@.take(i as int).to_set()),
            decreases wave.len() - i,
        {
            placed.insert(wave[i]);
            proof {
                lemma_take_next(wave@, i as int);
                assert(placed@ =~= earlier.union(wave@.take(i + 1).to_set()));
            }
            i += 1;
        }
        proof {
            assert(wave@.take(wave@.len() as int) =~= wave@);
            lemma_placed_step(dv, k);
            assert(placed@ == placed_before(dv, k + 1));
            lemma_placed_are_nodes(dv, k + 1);
            lemma_len_subset(placed@, dv.dom());
            let first = wave@[0];
            assert(wave@.to_set().contains(first));
            assert(placed@.contains(first) && !earlier.contains(first));
            assert(earlier.subset_of(placed@.remove(first)));
            lemma_len_subset(earlier, placed@.remove(first));
        }
        waves.push(wave);
    }
    proof {
        lemma_placed_are_nodes(dv, waves@.len());
        lemma_subset_equality(placed@, dv.dom());
        let ws = wave_seqs(waves@);
        assert forall|k: int| 0 <= k < ws.len() implies {
            &&& (#[trigger] ws[k]).no_duplicates()
            &&& ws[k].to_set() == wave_set(dv, k as nat)
            &&& ws[k].len() > 0
        } by {
            assert(ws[k] == waves@[k]@);
        }
    }
    Some(waves)
}

/// The width of the widest wave, at least 1 and at most what fits the result.
pub open spec fn widest(waves: Seq<Seq<u32>>) -> int
    decreases waves.len(),
{
    if waves.len() == 0 {
        1
    } else {
        let rest = widest(waves.drop_last());
        let width = if waves.last().len() > u16::MAX { u16::MAX as int } else {
            waves.last().len() as int
        };
        if width > rest {
            width
        } else {
            rest
        }
    }
}

/// The most nodes that any wave holds, which bounds the parallelism that is of use. It is
/// 1 where there is no wave, and stops at `u16::MAX`.
pub fn max_wave_width(waves: &Vec<Vec<u32>>) -> (width: u16)
    ensures
        width == widest(wave_seqs(waves@)),
        width >= 1,
{
    let mut width: u16 = 1;
    let mut k: usize = 0;
    while k < waves.len()
        invariant
            k <= waves.len(),
            width == widest(wave_seqs(waves@).take(k as int)),
            width >= 1,
        decreases waves.len() - k,
    {
        let len = waves[k].len();
        let capped: u16 = if len > u16::MAX as usize {
            u16::MAX
        } else {
            len as u16
        };
        proof {
            let ws = wave_seqs(waves@);
            assert(ws.take(k + 1).drop_last() =~= ws.take(k as int));
            assert(ws.take(k + 1).last() == waves@[k as int]@);
        }
        if capped > width {
            width = capped;
        }
        k += 1;
    }
    assert(wave_seqs(waves@).take(waves@.len() as int) =~= wave_seqs(waves@));
    width
}

} // verus!
