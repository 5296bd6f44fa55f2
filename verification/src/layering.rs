use vstd::prelude::*;
use vstd::set_lib::*;

verus! {

/// Whether every dependency of every node is a node itself.
pub open spec fn deps_closed(deps: Map<u32, Set<u32>>) -> bool {
    forall|v: u32, d: u32|
        deps.contains_key(v) && #[trigger] deps[v].contains(d) ==> deps.contains_key(d)
}

/// Whether a node can run once the nodes of `placed` have run: all it depends on is there.
pub open spec fn ready(deps: Map<u32, Set<u32>>, v: u32, placed: Set<u32>) -> bool {
    deps.contains_key(v) && deps[v].subset_of(placed)
}

/// The nodes that lie in one of the first `k` waves. Each wave takes every node not yet
/// placed whose dependencies are all placed.
pub open spec fn placed_before(deps: Map<u32, Set<u32>>, k: nat) -> Set<u32>
    decreases k,
{
    if k == 0 {
        Set::empty()
    } else {
        let earlier = placed_before(deps, (k - 1) as nat);
        Set::new(|v: u32| earlier.contains(v) || ready(deps, v, earlier))
    }
}

/// The nodes of wave `k`.
pub open spec fn wave_set(deps: Map<u32, Set<u32>>, k: nat) -> Set<u32> {
    Set::new(
        |v: u32| !placed_before(deps, k).contains(v) && ready(deps, v, placed_before(deps, k)),
    )
}

/// Whether the waves place every node, so that the graph can run.
pub open spec fn schedulable(deps: Map<u32, Set<u32>>) -> bool {
    exists|n: nat| placed_before(deps, n) == deps.dom()
}

/// Whether `waves` is the layering of the graph: wave `k` holds the nodes of `wave_set(k)`,
/// each once and in any order, no wave is empty, and together the waves hold every node.
pub open spec fn is_layering(deps: Map<u32, Set<u32>>, waves: Seq<Seq<u32>>) -> bool {
    &&& forall|k: int|
        0 <= k < waves.len() ==> {
            &&& (#[trigger] waves[k]).no_duplicates()
            &&& waves[k].to_set() == wave_set(deps, k as nat)
            &&& waves[k].len() > 0
        }
    &&& placed_before(deps, waves.len()) == deps.dom()
}

/// Whether a node occurs in wave `k` of `waves`.
pub open spec fn in_wave(waves: Seq<Seq<u32>>, k: int, v: u32) -> bool {
    0 <= k < waves.len() && waves[k].contains(v)
}

/// Whether `waves` is some order in which the graph can run: every node is in a wave, and
/// whatever a node of a wave depends on is in an earlier wave.
pub open spec fn valid_schedule(deps: Map<u32, Set<u32>>, waves: Seq<Seq<u32>>) -> bool {
    &&& forall|v: u32| deps.contains_key(v) ==> exists|k: int| #[trigger] in_wave(waves, k, v)
    &&& forall|k: int, v: u32, d: u32|
        #[trigger] in_wave(waves, k, v) && deps.contains_key(v) && #[trigger] deps[v].contains(d)
            ==> exists|j: int| j < k && #[trigger] in_wave(waves, j, d)
}

/// Whether `path` walks a directed cycle: each node depends on the next, the last on the
/// first.
pub open spec fn is_cycle(deps: Map<u32, Set<u32>>, path: Seq<u32>) -> bool {
    &&& path.len() > 0
    &&& forall|i: int|
        0 <= i < path.len() ==> deps.contains_key(#[trigger] path[i]) && deps[path[i]].contains(
            path[(i + 1) % (path.len() as int)],
        )
}

/// Only nodes are placed.
pub proof fn lemma_placed_are_nodes(deps: Map<u32, Set<u32>>, k: nat)
    ensures
        placed_before(deps, k).subset_of(deps.dom()),
    decreases k,
{
    if k > 0 {
        lemma_placed_are_nodes(deps, (k - 1) as nat);
    }
}

/// What is placed stays placed.
pub proof fn lemma_placed_grows(deps: Map<u32, Set<u32>>, j: nat, k: nat)
    requires
        j <= k,
    ensures
        placed_before(deps, j).subset_of(placed_before(deps, k)),
    decreases k,
{
    if j < k {
        lemma_placed_grows(deps, j, (k - 1) as nat);
    }
}

/// The nodes placed before wave `k + 1` are those placed before wave `k` and those of wave `k`.
pub proof fn lemma_placed_step(deps: Map<u32, Set<u32>>, k: nat)
    ensures
        placed_before(deps, k + 1) == placed_before(deps, k).union(wave_set(deps, k)),
{
    assert(placed_before(deps, k + 1) =~= placed_before(deps, k).union(wave_set(deps, k)));
}

/// A placed node lies in an earlier wave.
pub proof fn lemma_placed_in_wave(deps: Map<u32, Set<u32>>, k: nat, v: u32)
    requires
        placed_before(deps, k).contains(v),
    ensures
        exists|j: nat| j < k && #[trigger] wave_set(deps, j).contains(v),
    decreases k,
{
    if k > 0 {
        let earlier = placed_before(deps, (k - 1) as nat);
        if earlier.contains(v) {
            lemma_placed_in_wave(deps, (k - 1) as nat, v);
        } else {
            assert(wave_set(deps, (k - 1) as nat).contains(v));
        }
    }
}

/// Once a wave is empty, nothing is placed any more.
pub proof fn lemma_stuck(deps: Map<u32, Set<u32>>, k: nat, n: nat)
    requires
        wave_set(deps, k) == Set::<u32>::empty(),
        k <= n,
    ensures
        placed_before(deps, n) == placed_before(deps, k),
    decreases n,
{
    if k < n {
        lemma_stuck(deps, k, (n - 1) as nat);
        let earlier = placed_before(deps, (n - 1) as nat);
        assert forall|v: u32| placed_before(deps, n).contains(v) implies earlier.contains(v) by {
            if !earlier.contains(v) {
                assert(wave_set(deps, k).contains(v));
            }
        }
        assert(placed_before(deps, n) =~= earlier);
    }
}

/// A graph that gets stuck before every node is placed cannot run.
pub proof fn lemma_stuck_not_schedulable(deps: Map<u32, Set<u32>>, k: nat)
    requires
        wave_set(deps, k) == Set::<u32>::empty(),
        placed_before(deps, k) != deps.dom(),
    ensures
        !schedulable(deps),
{
    assert forall|n: nat| placed_before(deps, n) != deps.dom() by {
        if k <= n {
            lemma_stuck(deps, k, n);
        } else {
            lemma_placed_grows(deps, n, k);
            lemma_placed_are_nodes(deps, k);
            if placed_before(deps, n) == deps.dom() {
                assert(placed_before(deps, k) =~= deps.dom());
            }
        }
    }
}

/// In a layering, whatever a node depends on is a node.
pub proof fn lemma_layering_closed(deps: Map<u32, Set<u32>>, waves: Seq<Seq<u32>>)
    requires
        is_layering(deps, waves),
    ensures
        deps_closed(deps),
{
    assert forall|v: u32, d: u32| deps.contains_key(v) && #[trigger] deps[v].contains(
        d,
    ) implies deps.contains_key(d) by {
        assert(placed_before(deps, waves.len()).contains(v));
        lemma_placed_in_wave(deps, waves.len(), v);
        let j = choose|j: nat| j < waves.len() && #[trigger] wave_set(deps, j).contains(v);
        assert(placed_before(deps, j).contains(d));
        lemma_placed_are_nodes(deps, j);
    }
}

/// Dependency closure: in a layering, whatever a node of wave `k` depends on lies in an
/// earlier wave. A node of the first wave depends on nothing.
pub proof fn lemma_dependency_closure(
    deps: Map<u32, Set<u32>>,
    waves: Seq<Seq<u32>>,
    k: int,
    v: u32,
    d: u32,
)
    requires
        is_layering(deps, waves),
        in_wave(waves, k, v),
        deps[v].contains(d),
    ensures
        k > 0,
        exists|j: int| 0 <= j < k && #[trigger] in_wave(waves, j, d),
{
    assert(waves[k].to_set().contains(v));
    assert(wave_set(deps, k as nat).contains(v));
    assert(placed_before(deps, k as nat).contains(d));
    lemma_placed_in_wave(deps, k as nat, d);
    let j = choose|j: nat| j < k && #[trigger] wave_set(deps, j).contains(d);
    assert(waves[j as int].to_set().contains(d));
    assert(in_wave(waves, j as int, d));
}

/// A node that is not placed before wave `k` stands in no earlier wave than `k` of any
/// order in which the graph can run.
proof fn lemma_no_earlier(
    deps: Map<u32, Set<u32>>,
    other: Seq<Seq<u32>>,
    k: nat,
    v: u32,
    a: int,
)
    requires
        deps_closed(deps),
        valid_schedule(deps, other),
        deps.contains_key(v),
        !placed_before(deps, k).contains(v),
        in_wave(other, a, v),
    ensures
        a >= k,
    decreases k,
{
    if k > 0 {
        let earlier = placed_before(deps, (k - 1) as nat);
        assert(!ready(deps, v, earlier));
        let d = choose|d: u32| deps[v].contains(d) && !earlier.contains(d);
        assert(deps[v].contains(d));
        let j = choose|j: int| j < a && #[trigger] in_wave(other, j, d);
        lemma_no_earlier(deps, other, (k - 1) as nat, d, j);
    }
}

/// Minimality: no order in which the graph can run has fewer waves than the layering.
pub proof fn lemma_layering_minimal(
    deps: Map<u32, Set<u32>>,
    waves: Seq<Seq<u32>>,
    other: Seq<Seq<u32>>,
)
    requires
        is_layering(deps, waves),
        valid_schedule(deps, other),
    ensures
        waves.len() <= other.len(),
{
    if waves.len() > 0 {
        let last = waves.len() - 1;
        let v = waves[last][0];
        assert(waves[last].to_set().contains(v));
        assert(wave_set(deps, last as nat).contains(v));
        lemma_layering_closed(deps, waves);
        let a = choose|a: int| #[trigger] in_wave(other, a, v);
        lemma_no_earlier(deps, other, last as nat, v, a);
    }
}

/// No node of a cycle is ever placed.
proof fn lemma_cycle_never_placed(deps: Map<u32, Set<u32>>, path: Seq<u32>, k: nat, i: int)
    requires
        is_cycle(deps, path),
        0 <= i < path.len(),
    ensures
        !placed_before(deps, k).contains(path[i]),
    decreases k,
{
    if k > 0 {
        let earlier = placed_before(deps, (k - 1) as nat);
        let next = (i + 1) % (path.len() as int);
        lemma_cycle_never_placed(deps, path, (k - 1) as nat, i);
        lemma_cycle_never_placed(deps, path, (k - 1) as nat, next);
        assert(deps[path[i]].contains(path[next]));
    }
}

/// Cycle detection: a graph with a directed cycle cannot run.
pub proof fn lemma_cycle_not_schedulable(deps: Map<u32, Set<u32>>, path: Seq<u32>)
    requires
        is_cycle(deps, path),
    ensures
        !schedulable(deps),
{
    assert forall|n: nat| placed_before(deps, n) != deps.dom() by {
        lemma_cycle_never_placed(deps, path, n, 0);
        assert(deps.dom().contains(path[0]));
    }
}

/// A layering is an order in which the graph can run.
pub proof fn lemma_layering_schedulable(deps: Map<u32, Set<u32>>, waves: Seq<Seq<u32>>)
    requires
        is_layering(deps, waves),
    ensures
        schedulable(deps),
        valid_schedule(deps, waves),
{
    let n: nat = waves.len();
    assert(placed_before(deps, n) == deps.dom());
    assert forall|v: u32| deps.contains_key(v) implies exists|k: int| #[trigger]
        in_wave(waves, k, v) by {
        assert(placed_before(deps, n).contains(v));
        lemma_placed_in_wave(deps, n, v);
        let j = choose|j: nat| j < n && #[trigger] wave_set(deps, j).contains(v);
        assert(waves[j as int].to_set().contains(v));
        assert(in_wave(waves, j as int, v));
    }
    assert forall|k: int, v: u32, d: u32|
        #[trigger] in_wave(waves, k, v) && deps.contains_key(v) && #[trigger] deps[v].contains(
            d,
        ) implies exists|j: int| j < k && #[trigger] in_wave(waves, j, d) by {
        lemma_dependency_closure(deps, waves, k, v, d);
    }
}

/// Whether no path through the graph walks a directed cycle.
pub open spec fn acyclic(deps: Map<u32, Set<u32>>) -> bool {
    forall|path: Seq<u32>| !is_cycle(deps, path)
}

/// Something that a node depends on and that is not placed.
spec fn unplaced_dep(deps: Map<u32, Set<u32>>, placed: Set<u32>, v: u32) -> u32 {
    choose|d: u32| deps[v].contains(d) && !placed.contains(d)
}

/// A walk of `n` steps from `start`, each step from a node to something unplaced that it
/// depends on.
spec fn walk(deps: Map<u32, Set<u32>>, placed: Set<u32>, start: u32, n: nat) -> Seq<u32>
    decreases n,
{
    if n == 0 {
        seq![start]
    } else {
        let shorter = walk(deps, placed, start, (n - 1) as nat);
        shorter.push(unplaced_dep(deps, placed, shorter.last()))
    }
}

/// Where the layering is stuck, a walk from an unplaced node stays among unplaced nodes.
proof fn lemma_walk(deps: Map<u32, Set<u32>>, k: nat, start: u32, n: nat)
    requires
        deps_closed(deps),
        wave_set(deps, k) == Set::<u32>::empty(),
        deps.contains_key(start),
        !placed_before(deps, k).contains(start),
    ensures
        walk(deps, placed_before(deps, k), start, n).len() == n + 1,
        forall|i: int|
            0 <= i <= n ==> deps.contains_key(
                #[trigger] walk(deps, placed_before(deps, k), start, n)[i],
            ) && !placed_before(deps, k).contains(
                walk(deps, placed_before(deps, k), start, n)[i],
            ),
        forall|i: int|
            0 <= i < n ==> deps[#[trigger] walk(deps, placed_before(deps, k), start, n)[i]].contains(
                walk(deps, placed_before(deps, k), start, n)[i + 1],
            ),
    decreases n,
{
    let placed = placed_before(deps, k);
    if n > 0 {
        lemma_walk(deps, k, start, (n - 1) as nat);
        let shorter = walk(deps, placed, start, (n - 1) as nat);
        let longer = walk(deps, placed, start, n);
        let v = shorter.last();
        assert(v == shorter[n - 1]);
        assert(deps.contains_key(v) && !placed.contains(v));
        assert(!wave_set(deps, k).contains(v));
        assert(!ready(deps, v, placed));
        let d = unplaced_dep(deps, placed, v);
        assert(deps[v].contains(d) && !placed.contains(d));
        assert(deps.contains_key(d));
        assert forall|i: int| 0 <= i <= n implies deps.contains_key(#[trigger] longer[i])
            && !placed.contains(longer[i]) by {
            if i < n {
                assert(longer[i] == shorter[i]);
            }
        }
        assert forall|i: int| 0 <= i < n implies deps[#[trigger] longer[i]].contains(
            longer[i + 1],
        ) by {
            if i < n - 1 {
                assert(longer[i] == shorter[i]);
                assert(longer[i + 1] == shorter[i + 1]);
            }
        }
    }
}

/// While no wave is empty, each wave places a node more.
proof fn lemma_progress(deps: Map<u32, Set<u32>>, k: nat)
    requires
        deps.dom().finite(),
        forall|j: nat| j < k ==> #[trigger] wave_set(deps, j) != Set::<u32>::empty(),
    ensures
        placed_before(deps, k).finite(),
        placed_before(deps, k).len() >= k,
    decreases k,
{
    lemma_placed_are_nodes(deps, k);
    lemma_len_subset(placed_before(deps, k), deps.dom());
    if k > 0 {
        let j = (k - 1) as nat;
        lemma_progress(deps, j);
        let earlier = placed_before(deps, j);
        let wave = wave_set(deps, j);
        assert(wave != Set::<u32>::empty());
        if forall|x: u32| !wave.contains(x) {
            assert(wave =~= Set::<u32>::empty());
        }
        let first = choose|x: u32| wave.contains(x);
        let later = placed_before(deps, k);
        assert(later.contains(first) && !earlier.contains(first));
        assert(earlier.subset_of(later.remove(first)));
        lemma_len_subset(earlier, later.remove(first));
    }
}

/// A graph that cannot run gets stuck: some wave is empty while nodes are left.
proof fn lemma_not_schedulable_stuck(deps: Map<u32, Set<u32>>) -> (k: nat)
    requires
        deps.dom().finite(),
        !schedulable(deps),
    ensures
        wave_set(deps, k) == Set::<u32>::empty(),
        placed_before(deps, k) != deps.dom(),
{
    let n = deps.dom().len();
    if forall|j: nat| j < n + 1 ==> #[trigger] wave_set(deps, j) != Set::<u32>::empty() {
        lemma_progress(deps, n + 1);
        lemma_placed_are_nodes(deps, n + 1);
        lemma_len_subset(placed_before(deps, n + 1), deps.dom());
        assert(false);
    }
    let k = choose|j: nat| j < n + 1 && #[trigger] wave_set(deps, j) == Set::<u32>::empty();
    assert(placed_before(deps, k) != deps.dom());
    k
}

/// A finite graph in which whatever a node depends on is a node, and in which no path
/// walks a directed cycle, can run: its nodes can be layered.
pub proof fn lemma_acyclic_schedulable(deps: Map<u32, Set<u32>>)
    requires
        deps.dom().finite(),
        deps_closed(deps),
        acyclic(deps),
    ensures
        schedulable(deps),
{
    if !schedulable(deps) {
        let k = lemma_not_schedulable_stuck(deps);
        let placed = placed_before(deps, k);
        lemma_placed_are_nodes(deps, k);
        if forall|x: u32| deps.dom().contains(x) ==> placed.contains(x) {
            assert(placed =~= deps.dom());
        }
        let start = choose|x: u32| deps.dom().contains(x) && !placed.contains(x);
        let n = deps.dom().len();
        let w = walk(deps, placed, start, n);
        lemma_walk(deps, k, start, n);
        if w.no_duplicates() {
            w.unique_seq_to_set();
            assert(w.to_set().subset_of(deps.dom())) by {
                assert forall|x: u32| w.to_set().contains(x) implies deps.dom().contains(x) by {
                    let i = choose|i: int| 0 <= i < w.len() && w[i] == x;
                    assert(deps.contains_key(w[i]));
                }
            }
            lemma_len_subset(w.to_set(), deps.dom());
            assert(false);
        }
        let (a, b) = choose|a: int, b: int|
            0 <= a < w.len() && 0 <= b < w.len() && a != b && w[a] == w[b];
        let i = if a < b { a } else { b };
        let j = if a < b { b } else { a };
        let path = w.subrange(i, j);
        let len = path.len() as int;
        assert(len == j - i && len > 0);
        assert forall|t: int| 0 <= t < path.len() implies deps.contains_key(#[trigger] path[t])
            && deps[path[t]].contains(path[(t + 1) % len]) by {
            assert(path[t] == w[i + t]);
            assert(deps.contains_key(w[i + t]));
            assert(deps[w[i + t]].contains(w[i + t + 1]));
            if t + 1 < len {
                assert((t + 1) % len == t + 1) by {
                    vstd::arithmetic::div_mod::lemma_small_mod((t + 1) as nat, len as nat);
                }
                assert(path[t + 1] == w[i + t + 1]);
            } else {
                assert((t + 1) % len == 0) by {
                    vstd::arithmetic::div_mod::lemma_mod_self_0(len);
                }
                assert(path[0] == w[i]);
                assert(w[i + t + 1] == w[j]);
            }
        }
        assert(is_cycle(deps, path));
    }
}

/// A finite graph in which whatever a node depends on is a node can run exactly if no
/// path through it walks a directed cycle.
pub proof fn lemma_schedulable_iff_acyclic(deps: Map<u32, Set<u32>>)
    requires
        deps.dom().finite(),
        deps_closed(deps),
    ensures
        schedulable(deps) <==> acyclic(deps),
{
    if acyclic(deps) {
        lemma_acyclic_schedulable(deps);
    }
    if schedulable(deps) {
        assert forall|path: Seq<u32>| !is_cycle(deps, path) by {
            if is_cycle(deps, path) {
                lemma_cycle_not_schedulable(deps, path);
            }
        }
    }
}

/// The layering of a graph is one: two layerings have the same number of waves, and the
/// same nodes in each wave.
pub proof fn lemma_layering_unique(
    deps: Map<u32, Set<u32>>,
    waves: Seq<Seq<u32>>,
    other: Seq<Seq<u32>>,
)
    requires
        is_layering(deps, waves),
        is_layering(deps, other),
    ensures
        waves.len() == other.len(),
        forall|k: int| 0 <= k < waves.len() ==> (#[trigger] waves[k]).to_set() == other[k].to_set(),
{
    lemma_layering_schedulable(deps, waves);
    lemma_layering_schedulable(deps, other);
    lemma_layering_minimal(deps, waves, other);
    lemma_layering_minimal(deps, other, waves);
}

} // verus!
