use std::collections::HashMap;
use vstd::prelude::*;
use vstd::std_specs::hash::*;
use rayon::iter::{IndexedParallelIterator, IntoParallelRefIterator, ParallelIterator};
use rayon::{ThreadPool, ThreadPoolBuildError, ThreadPoolBuilder};
use crate::analyzer::{
    deps_view, find_invalid_wire, keys_of, layer_waves, lemma_take_next, max_wave_width,
    wave_seqs, widest,
};
use crate::layering::{
    acyclic, deps_closed, is_layering, lemma_layering_schedulable, lemma_schedulable_iff_acyclic,
    schedulable,
};
use crate::graph_model::{
    definitions_known, dependencies, distinct, executors_bound_with, graph_deps,
    has_unserved_wire, input_counts_match, is_active_outputs, is_unserved_wire, lemma_distinct,
    def_of, is_invalid_wire, is_output_device, is_result_of, keeps_output_count,
    lemma_evaluation_stable,
    lemma_wire_refs, nodes_of,
    outputs_as_declared, produced_values, wire_in_use, wire_refs, wire_sources,
};
use crate::node::{evaluates_to, inputs_available, Node, NodeInput};
use crate::node_def::{NodeDef, NodeDefRunner, NodeExecutor};
use crate::node_def_registry::NodeDefRegistry;
use crate::node_value::NodeValue;
use crate::result_store::{publish_wave, stored_outputs, wave_outputs, NodeOutputRef, ResultStore};

verus! {

broadcast use group_hash_axioms;

/// Represents the current state of a `ComputeGraph`, including any errors that may
/// prevent it from executing.
#[derive(Debug, Clone, Copy, PartialEq, Eq, Structural)]
pub enum ComputeGraphState {
    Unprepared,
    ErrFoundCycle,
    ErrInvalidWire { from_node: u32, to_missing_node: u32 },
    Ready,
}

/// What can be wrong with a graph, or with a call on it.
#[derive(Debug, Clone, Copy, PartialEq, Eq, Structural)]
pub enum GraphError {
    /// The nodes cannot be ordered: some of them depend on each other in a circle.
    CycleDetected,
    /// A wire of `from_node` leads to `to_missing_node`, which does not provide it: there
    /// is no such node, or it has no such output.
    InvalidWire { from_node: u32, to_missing_node: u32 },
    /// The graph was asked to execute while it was not ready.
    PreconditionNotReady,
    /// The registry holds no definition of the name that `node` gives.
    UnknownDefinition { node: u32 },
    /// `node` has more or fewer inputs than its definition declares.
    InputCountMismatch { node: u32 },
}

impl ComputeGraphState {
    /// The error that keeps a graph in this state from executing. A graph that is ready
    /// has none.
    pub fn error(&self) -> (error: Option<GraphError>)
        ensures
            error == (match *self {
                ComputeGraphState::Unprepared => Some(GraphError::PreconditionNotReady),
                ComputeGraphState::ErrFoundCycle => Some(GraphError::CycleDetected),
                ComputeGraphState::ErrInvalidWire { from_node, to_missing_node } => Some(
                    GraphError::InvalidWire { from_node, to_missing_node },
                ),
                ComputeGraphState::Ready => None,
            }),
    {
        match *self {
            ComputeGraphState::Unprepared => Some(GraphError::PreconditionNotReady),
            ComputeGraphState::ErrFoundCycle => Some(GraphError::CycleDetected),
            ComputeGraphState::ErrInvalidWire { from_node, to_missing_node } => Some(
                GraphError::InvalidWire { from_node, to_missing_node },
            ),
            ComputeGraphState::Ready => None,
        }
    }
}

impl GraphError {
    /// The error in words.
    pub fn message(&self) -> (text: &'static str)
        ensures
            text@ == (match self {
                GraphError::CycleDetected => "The graph contains a cycle."@,
                GraphError::InvalidWire { .. } => "A wire leads to an output that is not there."@,
                GraphError::PreconditionNotReady => "Must call .prepare() before executing the graph."@,
                GraphError::UnknownDefinition { .. } => "A node names a definition that is not registered."@,
                GraphError::InputCountMismatch { .. } => "A node has not the inputs that its definition declares."@,
            }),
    {
        match self {
            GraphError::CycleDetected => "The graph contains a cycle.",
            GraphError::InvalidWire { .. } => "A wire leads to an output that is not there.",
            GraphError::PreconditionNotReady => "Must call .prepare() before executing the graph.",
            GraphError::UnknownDefinition { .. } => "A node names a definition that is not registered.",
            GraphError::InputCountMismatch { .. } => "A node has not the inputs that its definition declares.",
        }
    }
}

impl Node {
    /// The wires among the inputs, in the order of the inputs.
    pub fn wires(&self) -> (wires: Vec<NodeOutputRef>)
        ensures
            wires@ == wire_refs(self.inputs@),
    {
        let mut wires: Vec<NodeOutputRef> = Vec::new();
        let mut i: usize = 0;
        while i < self.inputs.len()
            invariant
                i <= self.inputs.len(),
                wires@ == wire_refs(self.inputs@.take(i as int)),
            decreases self.inputs.len() - i,
        {
            assert(self.inputs@.take(i + 1).drop_last() =~= self.inputs@.take(i as int));
            match &self.inputs[i] {
                NodeInput::Wire(output) => {
                    wires.push(*output);
                },
                NodeInput::Const(_) => {},
            }
            i += 1;
        }
        assert(self.inputs@.take(self.inputs@.len() as int) =~= self.inputs@);
        wires
    }
}

/// The worker pool of rayon.
#[verifier::external_type_specification]
#[verifier::external_body]
pub struct ExThreadPool(ThreadPool);

/// The error with which rayon declines to build a worker pool.
#[verifier::external_type_specification]
#[verifier::external_body]
pub struct ExThreadPoolBuildError(ThreadPoolBuildError);

/// The number of threads of a worker pool: what `rayon::ThreadPool::current_num_threads`
/// gives for it.
pub uninterp spec fn pool_thread_count(pool: ThreadPool) -> nat;

/// Whether rayon gives a pool exactly as many threads as it is asked for. It decides
/// itself when it is asked for none, and it gives no more than its sleep counter can
/// count: 255 where a pointer has fewer than 64 bits, and 65535 where it has 64.
pub open spec fn count_is_kept(thread_count: usize) -> bool {
    1 <= thread_count <= 255 || (usize::BITS == 64 && 1 <= thread_count <= 65535)
}

/// Builds a worker pool with `rayon::ThreadPoolBuilder`: `new`, then `num_threads` with
/// the given count, then `build`. Rayon may fail to start its threads, so nothing is
/// claimed of whether a pool comes back. Of a pool that does, the contract claims that it
/// has as many threads as were asked for, where rayon keeps to the count.
#[verifier::external_body]
fn build_pool(thread_count: usize) -> (pool: Result<ThreadPool, ThreadPoolBuildError>)
    ensures
        pool matches Ok(built) ==> (count_is_kept(thread_count) ==> pool_thread_count(built)
            == thread_count),
{
    ThreadPoolBuilder::new().num_threads(thread_count).build()
}

/// The number of threads of a pool, by `rayon::ThreadPool::current_num_threads`.
#[verifier::external_body]
fn thread_count_of(pool: &ThreadPool) -> (count: usize)
    ensures
        count == pool_thread_count(*pool),
{
    pool.current_num_threads()
}

/// The number of workers for a graph: as many as its widest wave can use, and no more
/// than were asked for.
pub open spec fn workers_for(max_parallel: u16, max_threads: u16) -> u16 {
    if max_parallel < max_threads {
        max_parallel
    } else {
        max_threads
    }
}

/// The number of workers for a graph: as many as its widest wave can use, and no more
/// than were asked for.
pub fn pool_size(max_parallel: u16, max_threads: u16) -> (size: u16)
    ensures
        size == workers_for(max_parallel, max_threads),
{
    if max_parallel < max_threads {
        max_parallel
    } else {
        max_threads
    }
}

/// Whether a list holds an id.
fn holds(list: &Vec<u32>, id: u32) -> (found: bool)
    ensures
        found == list@.contains(id),
{
    let mut i: usize = 0;
    while i < list.len()
        invariant
            i <= list.len(),
            forall|a: int| 0 <= a < i ==> list@[a] != id,
        decreases list.len() - i,
    {
        if list[i] == id {
            return true;
        }
        i += 1;
    }
    false
}

/// Takes the executors that were bound for the nodes `ids` into a map by node.
fn collect_executors(ids: &Vec<u32>, bound: Vec<Option<Box<dyn NodeExecutor>>>) -> (executors:
    HashMap<u32, Option<Box<dyn NodeExecutor>>>)
    requires
        ids@.no_duplicates(),
        bound@.len() == ids@.len(),
    ensures
        executors@.dom() == ids@.to_set(),
        forall|i: int| 0 <= i < ids@.len() ==> executors@[#[trigger] ids@[i]] == bound@[i],
{
    let ghost all = bound@;
    let mut rest = bound;
    let mut executors: HashMap<u32, Option<Box<dyn NodeExecutor>>> = HashMap::new();
    while rest.len() > 0
        invariant
            all == bound@,
            ids@.no_duplicates(),
            all.len() == ids@.len(),
            rest@.len() <= all.len(),
            rest@ == all.take(rest@.len() as int),
            forall|v: u32|
                executors@.contains_key(v) <==> exists|i: int|
                    rest@.len() <= i < ids@.len() && ids@[i] == v,
            forall|i: int|
                rest@.len() <= i < ids@.len() ==> executors@[#[trigger] ids@[i]] == all[i],
        decreases rest.len(),
    {
        let ghost before = executors@;
        let ghost remaining = rest@.len();
        let executor = rest.pop().unwrap();
        let i = rest.len();
        executors.insert(ids[i], executor);
        proof {
            assert forall|v: u32|
                executors@.contains_key(v) <==> exists|a: int|
                    i <= a < ids@.len() && ids@[a] == v by {
                if before.contains_key(v) {
                    let a = choose|a: int| remaining <= a < ids@.len() && ids@[a] == v;
                    assert(i <= a < ids@.len() && ids@[a] == v);
                }
                if v == ids@[i as int] {
                    assert(i <= i < ids@.len() && ids@[i as int] == v);
                }
                if exists|a: int| i <= a < ids@.len() && ids@[a] == v {
                    let a = choose|a: int| i <= a < ids@.len() && ids@[a] == v;
                    if a != i {
                        assert(remaining <= a < ids@.len() && ids@[a] == v);
                    }
                }
            }
        }
    }
    proof {
        assert forall|v: u32| executors@.contains_key(v) <==> ids@.to_set().contains(v) by {
            if ids@.contains(v) {
                let a = choose|a: int| 0 <= a < ids@.len() && ids@[a] == v;
                assert(0 <= a < ids@.len() && ids@[a] == v);
            }
        }
        assert(executors@.dom() =~= ids@.to_set());
    }
    executors
}

/// Whether the executor of a node can be bound: the node, its definition and its mask
/// are at hand.
pub open spec fn can_bind(
    nodes: Map<u32, Node>,
    registry: NodeDefRegistry,
    masks: Map<u32, Vec<bool>>,
    v: u32,
) -> bool {
    &&& registry.wf()
    &&& nodes.contains_key(v)
    &&& registry@.contains_key(nodes[v].def_name@)
    &&& masks.contains_key(v)
}

/// Whether `executor` is what binding a node can give: what binding a node of its
/// definition can give with the node's mask.
pub open spec fn bound_to(
    nodes: Map<u32, Node>,
    registry: NodeDefRegistry,
    masks: Map<u32, Vec<bool>>,
    v: u32,
    executor: Option<Box<dyn NodeExecutor>>,
) -> bool {
    def_of(nodes, registry@, v).binds(masks[v], executor)
}

/// Binds the executor of one node: builds it where the node's definition runs by one, and
/// prepares it with the node's mask of outputs in use.
fn bind_node(
    nodes: &HashMap<u32, Node>,
    registry: &NodeDefRegistry,
    active_outputs: &HashMap<u32, Vec<bool>>,
    node_id: u32,
) -> (executor: Option<Box<dyn NodeExecutor>>)
    requires
        can_bind(nodes@, *registry, active_outputs@, node_id),
    ensures
        bound_to(nodes@, *registry, active_outputs@, node_id, executor),
{
    let node = nodes.get(&node_id).unwrap();
    let mask = active_outputs.get(&node_id).unwrap();
    node.with_registry(registry).prepare(mask)
}

/// Binds the executors of the nodes `ids` on the workers of the pool. Makes one call of
/// `rayon::ThreadPool::install`, in which rayon's `par_iter`, `map` and
/// `collect_into_vec` call `bind_node` once for each id and put what it returned at the
/// position of that id. The contract claims that the result has one entry for each id, in
/// the order of `ids`, and that each entry is something that `bind_node` can return for
/// its id.
#[verifier::external_body]
fn bind_in_pool(
    pool: &ThreadPool,
    nodes: &HashMap<u32, Node>,
    registry: &NodeDefRegistry,
    active_outputs: &HashMap<u32, Vec<bool>>,
    ids: &Vec<u32>,
) -> (bound: Vec<Option<Box<dyn NodeExecutor>>>)
    requires
        forall|i: int|
            0 <= i < ids@.len() ==> can_bind(nodes@, *registry, active_outputs@, #[trigger] ids@[i]),
    ensures
        bound@.len() == ids@.len(),
        forall|i: int|
            0 <= i < ids@.len() ==> bound_to(
                nodes@,
                *registry,
                active_outputs@,
                ids@[i],
                #[trigger] bound@[i],
            ),
{
    let mut bound = Vec::new();
    pool.install(
        || ids.par_iter().map(|id| bind_node(nodes, registry, active_outputs, *id)).collect_into_vec(
            &mut bound,
        ),
    );
    bound
}

/// Binds the executors of the nodes `ids` one after the other, on the calling thread.
fn bind_in_turn(
    nodes: &HashMap<u32, Node>,
    registry: &NodeDefRegistry,
    active_outputs: &HashMap<u32, Vec<bool>>,
    ids: &Vec<u32>,
) -> (bound: Vec<Option<Box<dyn NodeExecutor>>>)
    requires
        forall|i: int|
            0 <= i < ids@.len() ==> can_bind(nodes@, *registry, active_outputs@, #[trigger] ids@[i]),
    ensures
        bound@.len() == ids@.len(),
        forall|i: int|
            0 <= i < ids@.len() ==> bound_to(
                nodes@,
                *registry,
                active_outputs@,
                ids@[i],
                #[trigger] bound@[i],
            ),
{
    let mut bound: Vec<Option<Box<dyn NodeExecutor>>> = Vec::with_capacity(ids.len());
    let mut i: usize = 0;
    while i < ids.len()
        invariant
            i <= ids.len(),
            bound@.len() == i,
            forall|a: int|
                0 <= a < ids@.len() ==> can_bind(
                    nodes@,
                    *registry,
                    active_outputs@,
                    #[trigger] ids@[a],
                ),
            forall|a: int|
                0 <= a < i ==> bound_to(
                    nodes@,
                    *registry,
                    active_outputs@,
                    ids@[a],
                    #[trigger] bound@[a],
                ),
        decreases ids.len() - i,
    {
        bound.push(bind_node(nodes, registry, active_outputs, ids[i]));
        i += 1;
    }
    bound
}

/// Evaluates the nodes of a wave on the workers of the pool. Makes one call of
/// `rayon::ThreadPool::install`, in which rayon's `par_iter`, `map` and
/// `collect_into_vec` call `ComputeGraph::evaluate_node` once for each node of the wave
/// and put what it returned at the position of that node. The contract claims that the
/// result has one entry for each node, in the order of `wave`, and that each entry is
/// something that `evaluate_node` can return for its node.
#[verifier::external_body]
fn evaluate_in_pool(
    pool: &ThreadPool,
    graph: &ComputeGraph,
    wave: &Vec<u32>,
    store: &ResultStore,
) -> (results: Vec<Vec<NodeValue>>)
    requires
        forall|i: int| 0 <= i < wave@.len() ==> graph.can_evaluate(#[trigger] wave@[i], store@),
    ensures
        results@.len() == wave@.len(),
        forall|i: int|
            0 <= i < wave@.len() ==> graph.evaluated(wave@[i], store@, #[trigger] results@[i]),
{
    let mut results = Vec::new();
    pool.install(
        || wave.par_iter().map(|id| graph.evaluate_node(*id, store)).collect_into_vec(&mut results),
    );
    results
}

/// A mask of the given length with no mark set.
fn cleared_mask(len: usize) -> (mask: Vec<bool>)
    ensures
        mask@.len() == len,
        forall|j: int| 0 <= j < len ==> !#[trigger] mask@[j],
{
    let mut mask: Vec<bool> = Vec::with_capacity(len);
    let mut j: usize = 0;
    while j < len
        invariant
            j <= len,
            mask@.len() == j,
            forall|b: int| 0 <= b < j ==> !#[trigger] mask@[b],
        decreases len - j,
    {
        mask.push(false);
        j += 1;
    }
    mask
}

/// A `ComputeGraph` is a set of connected nodes, where each node is a compute operation
/// that can rely on the results of other compute operations as inputs. A graph can be
/// run in parallel because nodes have no side effects on each other.
pub struct ComputeGraph<'a> {
    nodes: HashMap<u32, Node>,
    registry: &'a NodeDefRegistry,
    state: ComputeGraphState,
    /// Waves represent 'waves' of processing, where each node in a wave relies
    /// only on nodes in a previous wave. This means nodes in the same wave can
    /// by definition be executed in parallel.
    waves: Option<Vec<Vec<u32>>>,
    /// Stores the optional `NodeExecutor` of each node.
    executors: Option<HashMap<u32, Option<Box<dyn NodeExecutor>>>>,
    /// The worker pool that evaluates the nodes of a wave side by side.
    runner: Option<ThreadPool>,
}

impl<'a> ComputeGraph<'a> {
    /// The nodes of the graph, by id.
    pub closed spec fn nodes(&self) -> Map<u32, Node> {
        self.nodes@
    }

    /// The registry that the graph reads its definitions from.
    pub closed spec fn registry(&self) -> NodeDefRegistry {
        *self.registry
    }

    /// The state of the graph.
    pub closed spec fn state(&self) -> ComputeGraphState {
        self.state
    }

    /// The waves of the graph, while it holds any.
    pub closed spec fn waves_view(&self) -> Option<Seq<Seq<u32>>> {
        match self.waves {
            Some(waves) => Some(crate::analyzer::wave_seqs(waves@)),
            None => None,
        }
    }

    /// What each node depends on.
    pub open spec fn deps(&self) -> Map<u32, Set<u32>> {
        graph_deps(self.nodes())
    }

    /// The definition of a node.
    pub open spec fn def_of(&self, v: u32) -> NodeDef {
        def_of(self.nodes(), self.registry()@, v)
    }

    /// The executors that the graph holds, by node.
    pub closed spec fn executors(&self) -> Map<u32, Option<Box<dyn NodeExecutor>>> {
        match self.executors {
            Some(executors) => executors@,
            None => Map::empty(),
        }
    }

    /// Whether the graph holds executors.
    pub closed spec fn holds_executors(&self) -> bool {
        self.executors is Some
    }

    /// The number of threads of the worker pool that the graph holds, while it holds one.
    pub closed spec fn pool_threads(&self) -> Option<nat> {
        match self.runner {
            Some(pool) => Some(pool_thread_count(pool)),
            None => None,
        }
    }

    /// Whether the graph holds nothing that a preparation made: no waves, no executors
    /// and no worker pool.
    pub open spec fn holds_nothing(&self) -> bool {
        &&& self.waves_view() is None
        &&& !self.holds_executors()
        &&& self.executors() == Map::<u32, Option<Box<dyn NodeExecutor>>>::empty()
        &&& self.pool_threads() is None
    }

    /// Whether the executors that the graph holds are what binding its nodes can give with
    /// the masks of their outputs in use.
    pub open spec fn executors_bound(&self) -> bool {
        exists|masks: Map<u32, Vec<bool>>| #[trigger]
            executors_bound_with(self.nodes(), self.registry()@, masks, self.executors())
    }

    /// What holds of every graph: its registry is sound, and while it is ready it holds
    /// the layering of its nodes, knows the definition of each, and has bound their
    /// executors.
    pub open spec fn wf(&self) -> bool {
        &&& self.registry().wf()
        &&& self.state() == ComputeGraphState::Ready ==> {
            &&& self.waves_view() matches Some(waves) && is_layering(self.deps(), waves)
            &&& definitions_known(self.nodes(), self.registry()@)
            &&& input_counts_match(self.nodes(), self.registry()@)
            &&& self.holds_executors()
            &&& self.executors_bound()
        }
    }

    /// A graph whose wires all lead to nodes can run exactly if no path through it walks
    /// a directed cycle. On such a graph `prepare_graph_order` succeeds, and on no other.
    pub proof fn lemma_can_run_iff_acyclic(&self)
        requires
            deps_closed(self.deps()),
        ensures
            schedulable(self.deps()) <==> acyclic(self.deps()),
    {
        assert(self.deps().dom() =~= self.nodes@.dom());
        lemma_schedulable_iff_acyclic(self.deps());
    }

    /// Creates a new graph with a collection of nodes.
    pub fn new(node_def_registry: &'a NodeDefRegistry, nodes_list: Vec<Node>) -> (graph:
        ComputeGraph<'a>)
        requires
            node_def_registry.wf(),
        ensures
            graph.wf(),
            graph.nodes() == nodes_of(nodes_list@),
            graph.registry() == *node_def_registry,
            graph.state() == ComputeGraphState::Unprepared,
            graph.holds_nothing(),
    {
        let mut nodes: HashMap<u32, Node> = HashMap::new();
        let ghost list = nodes_list@;
        for node in it: nodes_list
            invariant
                it.seq() == list,
                nodes@ == nodes_of(list.take(it.index())),
        {
            assert(list.take(it.index() + 1).drop_last() =~= list.take(it.index()));
            nodes.insert(node.id, node);
        }
        assert(list.take(list.len() as int) =~= list);
        ComputeGraph {
            nodes: nodes,
            registry: node_def_registry,
            state: ComputeGraphState::Unprepared,
            waves: None,
            executors: None,
            runner: None,
        }
    }

    /// The state of the graph. Unless it is `Ready`, `prepare` must be run on the graph
    /// before it can be executed.
    pub fn get_state(&self) -> (state: ComputeGraphState)
        ensures
            state == self.state(),
    {
        self.state
    }

    /// Adds or updates a node in the graph.
    pub fn set_node(&mut self, node: Node)
        requires
            old(self).wf(),
        ensures
            final(self).wf(),
            final(self).nodes() == old(self).nodes().insert(node.id, node),
            final(self).registry() == old(self).registry(),
            final(self).state() == ComputeGraphState::Unprepared,
            final(self).holds_nothing(),
    {
        self.state = ComputeGraphState::Unprepared;
        self.waves = None;
        self.executors = None;
        self.runner = None;
        self.nodes.insert(node.id, node);
    }

    /// Removes a node from the graph.
    pub fn remove_node(&mut self, node_id: &u32)
        requires
            old(self).wf(),
        ensures
            final(self).wf(),
            final(self).nodes() == old(self).nodes().remove(*node_id),
            final(self).registry() == old(self).registry(),
            final(self).state() == ComputeGraphState::Unprepared,
            final(self).holds_nothing(),
    {
        self.state = ComputeGraphState::Unprepared;
        self.waves = None;
        self.executors = None;
        self.runner = None;
        self.nodes.remove(node_id);
    }

    /// Build a map of each node and the other nodes it relies on: the nodes that its
    /// wires come from, each once.
    pub fn build_deps_graph(&self) -> (deps: HashMap<u32, Vec<u32>>)
        ensures
            deps@.dom() == self.nodes().dom(),
            forall|v: u32|
                self.nodes().contains_key(v) ==> {
                    &&& (#[trigger] deps@[v])@ == dependencies(self.nodes()[v].inputs@)
                    &&& deps@[v]@.no_duplicates()
                    &&& deps@[v]@.to_set() == wire_sources(self.nodes()[v].inputs@).to_set()
                },
            deps_view(deps@) == self.deps(),
    {
        let ids = keys_of(&self.nodes);
        let mut deps: HashMap<u32, Vec<u32>> = HashMap::new();
        let mut i: usize = 0;
        while i < ids.len()
            invariant
                i <= ids.len(),
                ids@.to_set() == self.nodes@.dom(),
                deps@.dom() == ids@.take(i as int).to_set(),
                forall|v: u32|
                    deps@.contains_key(v) ==> (#[trigger] deps@[v])@ == dependencies(
                        self.nodes@[v].inputs@,
                    ),
            decreases ids.len() - i,
        {
            let id = ids[i];
            assert(ids@.to_set().contains(id));
            let node = self.nodes.get(&id).unwrap();
            let wires = node.wires();
            let ghost sources_of = |output: NodeOutputRef| output.from_node_id;
            let mut sources: Vec<u32> = Vec::new();
            let mut j: usize = 0;
            while j < wires.len()
                invariant
                    j <= wires.len(),
                    sources_of == |output: NodeOutputRef| output.from_node_id,
                    sources@ == distinct(wires@.take(j as int).map_values(sources_of)),
                decreases wires.len() - j,
            {
                let source = wires[j].from_node_id;
                proof {
                    let longer = wires@.take(j + 1).map_values(sources_of);
                    assert(longer.drop_last() =~= wires@.take(j as int).map_values(sources_of));
                    assert(longer.last() == source);
                }
                if !holds(&sources, source) {
                    sources.push(source);
                }
                j += 1;
            }
            assert(wires@.take(wires@.len() as int) =~= wires@);
            deps.insert(id, sources);
            proof {
                lemma_take_next(ids@, i as int);
            }
            i += 1;
        }
        proof {
            assert(ids@.take(ids@.len() as int) =~= ids@);
            assert forall|v: u32| self.nodes@.contains_key(v) implies {
                &&& (#[trigger] deps@[v])@.no_duplicates()
                &&& deps@[v]@.to_set() == wire_sources(self.nodes@[v].inputs@).to_set()
            } by {
                lemma_distinct(wire_sources(self.nodes@[v].inputs@));
            }
            assert(deps_view(deps@) =~= self.deps());
        }
        deps
    }

    /// Holds every node against its definition: the registry must know the definition,
    /// and the node must have as many inputs as the definition declares. An unknown
    /// definition is reported before any wrong number of inputs.
    pub fn check_definitions(&self) -> (checked: Result<(), GraphError>)
        requires
            self.registry().wf(),
        ensures
            match checked {
                Ok(()) => definitions_known(self.nodes(), self.registry()@) && input_counts_match(
                    self.nodes(),
                    self.registry()@,
                ),
                Err(GraphError::UnknownDefinition { node }) => self.nodes().contains_key(node)
                    && !self.registry()@.contains_key(self.nodes()[node].def_name@),
                Err(GraphError::InputCountMismatch { node }) => definitions_known(
                    self.nodes(),
                    self.registry()@,
                ) && self.nodes().contains_key(node) && self.nodes()[node].inputs@.len()
                    != self.def_of(node).inputs@.len(),
                Err(_) => false,
            },
    {
        let ids = keys_of(&self.nodes);
        let mut i: usize = 0;
        while i < ids.len()
            invariant
                i <= ids.len(),
                self.registry.wf(),
                ids@.to_set() == self.nodes@.dom(),
                forall|a: int|
                    0 <= a < i ==> self.registry@.contains_key(
                        (#[trigger] self.nodes@[ids@[a]]).def_name@,
                    ),
            decreases ids.len() - i,
        {
            let id = ids[i];
            assert(ids@.to_set().contains(id));
            let node = self.nodes.get(&id).unwrap();
            if !self.registry.contains(&node.def_name) {
                return Err(GraphError::UnknownDefinition { node: id });
            }
            i += 1;
        }
        assert forall|v: u32| self.nodes@.contains_key(v) implies self.registry@.contains_key(
            #[trigger] self.nodes@[v].def_name@,
        ) by {
            assert(ids@.to_set().contains(v));
            let a = choose|a: int| 0 <= a < ids@.len() && ids@[a] == v;
            assert(self.registry@.contains_key(self.nodes@[ids@[a]].def_name@));
        }
        let mut i: usize = 0;
        while i < ids.len()
            invariant
                i <= ids.len(),
                self.registry.wf(),
                ids@.to_set() == self.nodes@.dom(),
                definitions_known(self.nodes@, self.registry@),
                forall|a: int|
                    0 <= a < i ==> (#[trigger] self.nodes@[ids@[a]]).inputs@.len()
                        == self.registry@[self.nodes@[ids@[a]].def_name@].inputs@.len(),
            decreases ids.len() - i,
        {
            let id = ids[i];
            assert(ids@.to_set().contains(id));
            let node = self.nodes.get(&id).unwrap();
            if node.inputs.len() != node.with_registry(self.registry).get_input_count() {
                return Err(GraphError::InputCountMismatch { node: id });
            }
            i += 1;
        }
        assert forall|v: u32| self.nodes@.contains_key(v) implies (#[trigger] self.nodes@[v]).inputs@.len()
            == self.registry@[self.nodes@[v].def_name@].inputs@.len() by {
            assert(ids@.to_set().contains(v));
            let a = choose|a: int| 0 <= a < ids@.len() && ids@[a] == v;
            assert(self.nodes@[ids@[a]].inputs@.len()
                == self.registry@[self.nodes@[ids@[a]].def_name@].inputs@.len());
        }
        Ok(())
    }

    /// Every wire of the graph, node by node.
    fn all_wires(&self) -> (wires: Vec<NodeOutputRef>)
        ensures
            forall|output: NodeOutputRef|
                wires@.contains(output) <==> wire_in_use(self.nodes@, output),
    {
        let ids = keys_of(&self.nodes);
        let mut wires: Vec<NodeOutputRef> = Vec::new();
        let mut i: usize = 0;
        while i < ids.len()
            invariant
                i <= ids.len(),
                ids@.to_set() == self.nodes@.dom(),
                forall|output: NodeOutputRef|
                    wires@.contains(output) <==> exists|a: int|
                        0 <= a < i && #[trigger] wire_refs(self.nodes@[ids@[a]].inputs@).contains(
                            output,
                        ),
            decreases ids.len() - i,
        {
            let id = ids[i];
            assert(ids@.to_set().contains(id));
            let node = self.nodes.get(&id).unwrap();
            let mut found = node.wires();
            let ghost before = wires@;
            let ghost added = found@;
            wires.append(&mut found);
            proof {
                assert forall|output: NodeOutputRef|
                    wires@.contains(output) <==> exists|a: int|
                        0 <= a < i + 1 && #[trigger] wire_refs(
                            self.nodes@[ids@[a]].inputs@,
                        ).contains(output) by {
                    if wires@.contains(output) {
                        let b = choose|b: int| 0 <= b < wires@.len() && wires@[b] == output;
                        if b < before.len() {
                            assert(before[b] == output);
                            assert(before.contains(output));
                            let a = choose|a: int|
                                0 <= a < i && #[trigger] wire_refs(
                                    self.nodes@[ids@[a]].inputs@,
                                ).contains(output);
                            assert(0 <= a < i + 1 && wire_refs(
                                self.nodes@[ids@[a]].inputs@,
                            ).contains(output));
                        } else {
                            assert(added[b - before.len()] == output);
                            assert(wire_refs(self.nodes@[ids@[i as int]].inputs@).contains(output));
                        }
                    }
                    if exists|a: int|
                        0 <= a < i + 1 && #[trigger] wire_refs(
                            self.nodes@[ids@[a]].inputs@,
                        ).contains(output) {
                        let a = choose|a: int|
                            0 <= a < i + 1 && #[trigger] wire_refs(
                                self.nodes@[ids@[a]].inputs@,
                            ).contains(output);
                        if a < i {
                            assert(before.contains(output));
                            let b = choose|b: int| 0 <= b < before.len() && before[b] == output;
                            assert(wires@[b] == output);
                        } else {
                            let b = choose|b: int| 0 <= b < added.len() && added[b] == output;
                            assert(wires@[before.len() + b] == output);
                        }
                    }
                }
            }
            i += 1;
        }
        proof {
            assert forall|output: NodeOutputRef|
                wires@.contains(output) <==> wire_in_use(self.nodes@, output) by {
                if wires@.contains(output) {
                    let a = choose|a: int|
                        0 <= a < i && #[trigger] wire_refs(self.nodes@[ids@[a]].inputs@).contains(
                            output,
                        );
                    assert(ids@.to_set().contains(ids@[a]));
                }
                if wire_in_use(self.nodes@, output) {
                    let v = choose|v: u32|
                        self.nodes@.contains_key(v) && #[trigger] wire_refs(
                            self.nodes@[v].inputs@,
                        ).contains(output);
                    assert(ids@.to_set().contains(v));
                    let a = choose|a: int| 0 <= a < ids@.len() && ids@[a] == v;
                    assert(wire_refs(self.nodes@[ids@[a]].inputs@).contains(output));
                }
            }
        }
        wires
    }

    /// Determines which outputs of each node are actively in use.
    pub fn compute_active_outputs(&self) -> (masks: HashMap<u32, Vec<bool>>)
        requires
            self.registry().wf(),
            definitions_known(self.nodes(), self.registry()@),
        ensures
            is_active_outputs(self.nodes(), self.registry()@, masks@),
    {
        let ids = keys_of(&self.nodes);
        let mut masks: HashMap<u32, Vec<bool>> = HashMap::new();
        let mut i: usize = 0;
        while i < ids.len()
            invariant
                i <= ids.len(),
                self.registry.wf(),
                definitions_known(self.nodes@, self.registry@),
                ids@.to_set() == self.nodes@.dom(),
                forall|v: u32| masks@.contains_key(v) <==> ids@.take(i as int).contains(v),
                forall|v: u32|
                    masks@.contains_key(v) ==> (#[trigger] masks@[v])@.len()
                        == self.registry@[self.nodes@[v].def_name@].outputs@.len(),
                forall|v: u32, j: int|
                    masks@.contains_key(v) && 0 <= j < masks@[v]@.len() ==> !#[trigger] masks@[v]@[j],
            decreases ids.len() - i,
        {
            let id = ids[i];
            assert(ids@.to_set().contains(id));
            let node = self.nodes.get(&id).unwrap();
            let count = node.with_registry(self.registry).get_output_count();
            masks.insert(id, cleared_mask(count));
            proof {
                lemma_take_next(ids@, i as int);
            }
            i += 1;
        }
        proof {
            assert(ids@.take(ids@.len() as int) =~= ids@);
            assert(masks@.dom() =~= self.nodes@.dom());
        }
        let wires = self.all_wires();
        let mut t: usize = 0;
        while t < wires.len()
            invariant
                t <= wires.len(),
                masks@.dom() == self.nodes@.dom(),
                forall|v: u32|
                    masks@.contains_key(v) ==> (#[trigger] masks@[v])@.len()
                        == self.registry@[self.nodes@[v].def_name@].outputs@.len(),
                forall|v: u32, j: int|
                    masks@.contains_key(v) && 0 <= j < masks@[v]@.len() ==> #[trigger] masks@[v]@[j]
                        == (j < 256 && wires@.take(t as int).contains(
                        NodeOutputRef { from_node_id: v, node_output_index: j as u8 },
                    )),
            decreases wires.len() - t,
        {
            let wire = wires[t];
            let ghost before = masks@;
            let ghost seen = wires@.take(t as int);
            assert(wires@.take(t + 1) =~= seen.push(wire));
            let index = wire.node_output_index as usize;
            match masks.remove(&wire.from_node_id) {
                Some(mut mask) => {
                    if index < mask.len() {
                        mask.set(index, true);
                    }
                    masks.insert(wire.from_node_id, mask);
                },
                None => {},
            }
            proof {
                assert(masks@.dom() =~= self.nodes@.dom());
                assert forall|v: u32, j: int|
                    masks@.contains_key(v) && 0 <= j < masks@[v]@.len() implies #[trigger] masks@[v]@[j]
                        == (j < 256 && wires@.take(t + 1).contains(
                        NodeOutputRef { from_node_id: v, node_output_index: j as u8 },
                    )) by {
                    let output = NodeOutputRef { from_node_id: v, node_output_index: j as u8 };
                    assert(before[v]@[j] == (j < 256 && seen.contains(output)));
                    lemma_take_next(wires@, t as int);
                }
            }
            t += 1;
        }
        proof {
            assert(wires@.take(wires@.len() as int) =~= wires@);
        }
        masks
    }

    /// Sorts the graph into waves. It first looks for a wire that leads to no node, then
    /// layers the nodes. On success the graph holds the waves, and the result is the
    /// greatest number of nodes that can ever run side by side, which bounds the number
    /// of threads worth having; the graph stays unprepared until `prepare` has done the
    /// rest. On failure the state of the graph names the fault.
    pub fn prepare_graph_order(&mut self) -> (order: Result<u16, GraphError>)
        requires
            old(self).wf(),
        ensures
            final(self).wf(),
            final(self).nodes() == old(self).nodes(),
            final(self).registry() == old(self).registry(),
            match order {
                Ok(width) => {
                    &&& final(self).state() == ComputeGraphState::Unprepared
                    &&& final(self).waves_view() matches Some(waves) && is_layering(
                        old(self).deps(),
                        waves,
                    ) && width == widest(waves)
                },
                Err(GraphError::InvalidWire { from_node, to_missing_node }) => {
                    &&& final(self).state() == (ComputeGraphState::ErrInvalidWire {
                        from_node,
                        to_missing_node,
                    })
                    &&& is_invalid_wire(old(self).nodes(), from_node, to_missing_node)
                },
                Err(GraphError::CycleDetected) => {
                    &&& final(self).state() == ComputeGraphState::ErrFoundCycle
                    &&& deps_closed(old(self).deps())
                    &&& !schedulable(old(self).deps())
                },
                Err(_) => false,
            },
            order is Ok <==> deps_closed(old(self).deps()) && schedulable(old(self).deps()),
            order is Err ==> final(self).holds_nothing(),
            !final(self).holds_executors(),
            final(self).pool_threads() is None,
    {
        self.state = ComputeGraphState::Unprepared;
        self.waves = None;
        self.executors = None;
        self.runner = None;
        let deps = self.build_deps_graph();
        match find_invalid_wire(&deps) {
            Some((from_node, to_missing_node)) => {
                self.state = ComputeGraphState::ErrInvalidWire { from_node, to_missing_node };
                assert(deps_view(deps@)[from_node].contains(to_missing_node));
                return Err(GraphError::InvalidWire { from_node, to_missing_node });
            },
            None => {},
        }
        match layer_waves(&deps) {
            Some(waves) => {
                let width = max_wave_width(&waves);
                proof {
                    lemma_layering_schedulable(self.deps(), wave_seqs(waves@));
                }
                self.waves = Some(waves);
                Ok(width)
            },
            None => {
                self.state = ComputeGraphState::ErrFoundCycle;
                Err(GraphError::CycleDetected)
            },
        }
    }

    /// Finishes a preparation with the pool that was built for it, if one was: holds
    /// every node against its definition, binds the executor of each node that runs by
    /// one, handing it the mask of its outputs in use, and turns the graph ready. Without
    /// a pool the executors are bound on the calling thread. It fails only where a
    /// definition is unknown or a node has not the inputs that its definition declares,
    /// and then leaves the graph as it was.
    fn bind_executors(&mut self, pool: Option<ThreadPool>) -> (ready: bool)
        requires
            old(self).wf(),
            old(self).state() == ComputeGraphState::Unprepared,
            old(self).waves_view() matches Some(waves) && is_layering(old(self).deps(), waves),
            !old(self).holds_executors(),
            old(self).pool_threads() is None,
        ensures
            final(self).wf(),
            final(self).nodes() == old(self).nodes(),
            final(self).registry() == old(self).registry(),
            final(self).waves_view() == old(self).waves_view(),
            ready <==> definitions_known(old(self).nodes(), old(self).registry()@)
                && input_counts_match(old(self).nodes(), old(self).registry()@),
            ready ==> final(self).state() == ComputeGraphState::Ready,
            ready ==> final(self).pool_threads() == (match pool {
                Some(built) => Some(pool_thread_count(built)),
                None => None,
            }),
            !ready ==> final(self).state() == ComputeGraphState::Unprepared
                && !final(self).holds_executors() && final(self).pool_threads() is None,
    {
        if self.check_definitions().is_err() {
            return false;
        }
        let active_outputs_per_node = self.compute_active_outputs();
        let ids = keys_of(&self.nodes);
        assert forall|i: int| 0 <= i < ids@.len() implies can_bind(
            self.nodes@,
            *self.registry,
            active_outputs_per_node@,
            #[trigger] ids@[i],
        ) by {
            assert(ids@.to_set().contains(ids@[i]));
        }
        let bound = match &pool {
            Some(workers) => bind_in_pool(
                workers,
                &self.nodes,
                self.registry,
                &active_outputs_per_node,
                &ids,
            ),
            None => bind_in_turn(&self.nodes, self.registry, &active_outputs_per_node, &ids),
        };
        let executors = collect_executors(&ids, bound);
        proof {
            assert forall|v: u32| self.nodes@.contains_key(v) implies self.def_of(v).binds(
                active_outputs_per_node@[v],
                #[trigger] executors@[v],
            ) by {
                assert(ids@.to_set().contains(v));
                let i = choose|i: int| 0 <= i < ids@.len() && ids@[i] == v;
                assert(executors@[ids@[i]] == bound@[i]);
            }
        }
        self.executors = Some(executors);
        self.runner = pool;
        self.state = ComputeGraphState::Ready;
        proof {
            assert(executors_bound_with(
                self.nodes(),
                self.registry()@,
                active_outputs_per_node@,
                self.executors(),
            ));
        }
        true
    }

    /// Whether the graph is sound: every wire leads to a node, the nodes can be ordered,
    /// the registry knows the definition of every node, and every node has as many
    /// inputs as its definition declares. A sound graph can be prepared, and no other.
    pub open spec fn sound(&self) -> bool {
        &&& deps_closed(self.deps())
        &&& schedulable(self.deps())
        &&& definitions_known(self.nodes(), self.registry()@)
        &&& input_counts_match(self.nodes(), self.registry()@)
    }

    /// What the state of the graph is to be after a preparation: `Ready` if the graph is
    /// sound, and else the name of the first fault in this order: a wire to no node, a
    /// cycle, and, leaving the graph `Unprepared`, an unknown definition or a wrong
    /// number of inputs.
    pub open spec fn prepared_state(&self, state: ComputeGraphState) -> bool {
        match state {
            ComputeGraphState::ErrInvalidWire { from_node, to_missing_node } => is_invalid_wire(
                self.nodes(),
                from_node,
                to_missing_node,
            ),
            ComputeGraphState::ErrFoundCycle => deps_closed(self.deps()) && !schedulable(
                self.deps(),
            ),
            ComputeGraphState::Unprepared => deps_closed(self.deps()) && schedulable(self.deps())
                && !(definitions_known(self.nodes(), self.registry()@) && input_counts_match(
                self.nodes(),
                self.registry()@,
            )),
            ComputeGraphState::Ready => self.sound(),
        }
    }

    /// Prepares the graph to be executed: orders the nodes into waves that can be
    /// evaluated in parallel, builds a worker pool of as many threads as the widest wave
    /// can use and no more than `max_threads`, holds every node against its definition,
    /// and binds the executor of each node that runs by one, handing it the mask of its
    /// outputs in use. Whatever an earlier preparation left is dropped first. Where no
    /// pool can be built, the graph is prepared all the same, and runs on the calling
    /// thread.
    ///
    /// Returns true exactly if the graph is sound. A wire to no node leaves the state
    /// `ErrInvalidWire`, and a cycle `ErrFoundCycle`. An unknown definition and a wrong
    /// number of inputs leave the graph `Unprepared`.
    pub fn prepare(&mut self, max_threads: u16) -> (ready: bool)
        requires
            old(self).wf(),
        ensures
            final(self).wf(),
            final(self).nodes() == old(self).nodes(),
            final(self).registry() == old(self).registry(),
            ready <==> old(self).sound(),
            ready <==> final(self).state() == ComputeGraphState::Ready,
            old(self).prepared_state(final(self).state()),
            ready ==> final(self).sized_for(max_threads),
            !ready ==> !final(self).holds_executors() && final(self).pool_threads() is None,
    {
        let max_parallel = match self.prepare_graph_order() {
            Ok(width) => width,
            Err(_) => {
                return false;
            },
        };
        // Prepare a threadpool for execution.
        let thread_count = pool_size(max_parallel, max_threads);
        let pool = match build_pool(thread_count as usize) {
            Ok(pool) => Some(pool),
            Err(_) => None,
        };
        self.bind_executors(pool)
    }

    /// Prepares the graph as `prepare` does, but without a worker pool: its nodes will
    /// run one after the other, on the calling thread.
    pub fn prepare_without_pool(&mut self) -> (ready: bool)
        requires
            old(self).wf(),
        ensures
            final(self).wf(),
            final(self).nodes() == old(self).nodes(),
            final(self).registry() == old(self).registry(),
            ready <==> old(self).sound(),
            ready <==> final(self).state() == ComputeGraphState::Ready,
            old(self).prepared_state(final(self).state()),
            final(self).pool_threads() is None,
            !ready ==> !final(self).holds_executors(),
    {
        match self.prepare_graph_order() {
            Ok(_) => self.bind_executors(None),
            Err(_) => false,
        }
    }

    /// Whether the worker pool of the graph, if it holds one, has the size that a
    /// preparation for `max_threads` threads gives it: as many threads as the widest wave
    /// can use, and no more than `max_threads`, where rayon keeps to that count.
    pub open spec fn sized_for(&self, max_threads: u16) -> bool {
        self.waves_view() matches Some(waves) && (self.pool_threads() is Some && count_is_kept(
            workers_for(widest(waves) as u16, max_threads) as usize,
        ) ==> self.pool_threads() == Some(
            workers_for(widest(waves) as u16, max_threads) as nat,
        ))
    }

    /// The number of threads of the worker pool, while the graph holds one.
    pub fn thread_count(&self) -> (count: Option<usize>)
        ensures
            match count {
                Some(threads) => self.pool_threads() == Some(threads as nat),
                None => self.pool_threads() is None,
            },
    {
        match &self.runner {
            Some(pool) => Some(thread_count_of(pool)),
            None => None,
        }
    }

    /// The waves of the graph, where it holds any: each one lists the nodes that can run
    /// side by side once the waves before it have run.
    pub fn waves(&self) -> (waves: Option<&Vec<Vec<u32>>>)
        ensures
            match waves {
                Some(list) => self.waves_view() == Some(wave_seqs(list@)),
                None => self.waves_view() is None,
            },
    {
        self.waves.as_ref()
    }

    /// Whether a node can be evaluated on what the store holds: the graph is ready, the
    /// node is one of its nodes, and every wire of the node finds its value.
    pub open spec fn can_evaluate(&self, v: u32, store: Map<NodeOutputRef, NodeValue>) -> bool {
        &&& self.wf()
        &&& self.state() == ComputeGraphState::Ready
        &&& self.nodes().contains_key(v)
        &&& inputs_available(self.nodes()[v].inputs@, store)
    }

    /// Whether `outputs` is something that evaluating a node of the graph on `store` can
    /// return.
    pub open spec fn evaluated(
        &self,
        v: u32,
        store: Map<NodeOutputRef, NodeValue>,
        outputs: Vec<NodeValue>,
    ) -> bool {
        evaluates_to(self.nodes()[v], self.def_of(v), self.executors()[v], store, outputs)
    }

    /// Evaluates one node of a ready graph on the outputs evaluated so far.
    pub fn evaluate_node(&self, node_id: u32, store: &ResultStore) -> (outputs: Vec<NodeValue>)
        requires
            self.can_evaluate(node_id, store@),
        ensures
            self.evaluated(node_id, store@, outputs),
    {
        let node = self.nodes.get(&node_id).unwrap();
        let executors = self.executors.as_ref().unwrap();
        let executor = executors.get(&node_id).unwrap();
        node.with_registry(self.registry).evaluate(store, executor)
    }

    /// Evaluates the nodes of a wave one after the other, on the calling thread.
    fn evaluate_in_turn(&self, wave: &Vec<u32>, store: &ResultStore) -> (results: Vec<
        Vec<NodeValue>,
    >)
        requires
            forall|i: int| 0 <= i < wave@.len() ==> self.can_evaluate(#[trigger] wave@[i], store@),
        ensures
            results@.len() == wave@.len(),
            forall|i: int|
                0 <= i < wave@.len() ==> self.evaluated(wave@[i], store@, #[trigger] results@[i]),
    {
        let mut results: Vec<Vec<NodeValue>> = Vec::with_capacity(wave.len());
        let mut i: usize = 0;
        while i < wave.len()
            invariant
                i <= wave.len(),
                results@.len() == i,
                forall|a: int|
                    0 <= a < wave@.len() ==> self.can_evaluate(#[trigger] wave@[a], store@),
                forall|a: int|
                    0 <= a < i ==> self.evaluated(wave@[a], store@, #[trigger] results@[a]),
            decreases wave.len() - i,
        {
            results.push(self.evaluate_node(wave[i], store));
            i += 1;
        }
        results
    }

    /// Looks among the nodes of a wave for a wire whose value the store lacks.
    /// `Some((node, wire))` names a node of the wave and such a wire among its inputs.
    fn find_missing_input(&self, wave: &Vec<u32>, store: &ResultStore) -> (missing: Option<
        (u32, NodeOutputRef),
    >)
        requires
            forall|i: int| 0 <= i < wave@.len() ==> self.nodes@.contains_key(#[trigger] wave@[i]),
        ensures
            match missing {
                Some((node, wire)) => {
                    &&& wave@.contains(node)
                    &&& wire_refs(self.nodes@[node].inputs@).contains(wire)
                    &&& !store@.contains_key(wire)
                },
                None => forall|i: int|
                    0 <= i < wave@.len() ==> inputs_available(
                        self.nodes@[#[trigger] wave@[i]].inputs@,
                        store@,
                    ),
            },
    {
        let mut i: usize = 0;
        while i < wave.len()
            invariant
                i <= wave.len(),
                forall|a: int| 0 <= a < wave@.len() ==> self.nodes@.contains_key(#[trigger] wave@[a]),
                forall|a: int|
                    0 <= a < i ==> inputs_available(
                        self.nodes@[#[trigger] wave@[a]].inputs@,
                        store@,
                    ),
            decreases wave.len() - i,
        {
            let node_id = wave[i];
            let node = self.nodes.get(&node_id).unwrap();
            match node.missing_input(store) {
                Some(output) => {
                    proof {
                        lemma_wire_refs(node.inputs@, output);
                    }
                    return Some((node_id, output));
                },
                None => {},
            }
            i += 1;
        }
        None
    }

    /// Whether an execution of the graph can return `store`: there is something that the
    /// nodes can have produced of which `store` is the result.
    pub open spec fn can_return(&self, store: Map<NodeOutputRef, NodeValue>) -> bool {
        exists|produced: Map<u32, Vec<NodeValue>>| #[trigger]
            is_result_of(self.nodes(), self.registry()@, self.executors(), produced, store)
    }

    /// Executes the graph: evaluates the waves in order, the nodes of a wave side by side
    /// on the worker pool, and files what each node produced before the next wave starts.
    ///
    /// A graph that is not ready is not executed. An execution stops before the first
    /// wave with a wire whose value was not produced, and names the node with that wire
    /// and the node that the wire comes from.
    pub fn execute(&self) -> (result: Result<ResultStore, GraphError>)
        requires
            self.wf(),
        ensures
            self.state() != ComputeGraphState::Ready <==> result == Err::<ResultStore, GraphError>(
                GraphError::PreconditionNotReady,
            ),
            result matches Ok(store) ==> store.wf() && self.can_return(store@),
            self.state() == ComputeGraphState::Ready && outputs_as_declared(
                self.nodes(),
                self.registry()@,
                self.executors(),
            ) ==> result is Ok,
            result matches Err(GraphError::InvalidWire { from_node, to_missing_node })
                ==> has_unserved_wire(
                self.nodes(),
                self.registry()@,
                self.executors(),
                from_node,
                to_missing_node,
            ),
            result matches Err(error) ==> error is PreconditionNotReady || error is InvalidWire,
    {
        if self.state != ComputeGraphState::Ready {
            return Err(GraphError::PreconditionNotReady);
        }
        let waves = self.waves.as_ref().unwrap();
        let mut ret = ResultStore::new();
        let ghost mut produced: Map<u32, Vec<NodeValue>> = Map::empty();
        let ghost layers = wave_seqs(waves@);
        proof {
            assert(ret@ =~= stored_outputs(produced_values(produced)));
            assert(produced.dom() =~= crate::layering::placed_before(self.deps(), 0));
        }
        let mut k: usize = 0;
        while k < waves.len()
            invariant
                k <= waves.len(),
                self.wf(),
                self.state == ComputeGraphState::Ready,
                self.waves == Some(*waves),
                layers == wave_seqs(waves@),
                is_layering(self.deps(), layers),
                ret.wf(),
                produced.dom() == crate::layering::placed_before(self.deps(), k as nat),
                ret@ == stored_outputs(produced_values(produced)),
                forall|v: u32|
                    produced.contains_key(v) ==> inputs_available(
                        (#[trigger] self.nodes@[v]).inputs@,
                        ret@,
                    ),
                forall|v: u32|
                    produced.contains_key(v) ==> self.evaluated(v, ret@, #[trigger] produced[v]),
            decreases waves.len() - k,
        {
            let wave = &waves[k];
            let ghost earlier = produced;
            let ghost held = ret@;
            proof {
                assert(layers[k as int] == wave@);
                crate::layering::lemma_placed_are_nodes(self.deps(), (k + 1) as nat);
                crate::layering::lemma_placed_step(self.deps(), k as nat);
                assert forall|i: int| 0 <= i < wave@.len() implies self.nodes@.contains_key(
                    #[trigger] wave@[i],
                ) && !earlier.contains_key(wave@[i]) by {
                    assert(wave@.to_set().contains(wave@[i]));
                }
            }
            match self.find_missing_input(wave, &ret) {
                Some((from_node, wire)) => {
                    proof {
                        let source = wire.from_node_id;
                        let refs = wire_refs(self.nodes@[from_node].inputs@);
                        let b = choose|b: int| 0 <= b < refs.len() && refs[b] == wire;
                        assert(wire_sources(self.nodes@[from_node].inputs@)[b] == source);
                        assert(self.deps()[from_node].contains(source));
                        assert(wave@.to_set().contains(from_node));
                        assert(earlier.contains_key(source));
                        crate::layering::lemma_placed_are_nodes(self.deps(), k as nat);
                        assert(self.deps().dom().contains(source));
                        assert(self.nodes@.contains_key(source));
                        assert(self.nodes@.contains_key(from_node));
                        if !is_output_device(self.nodes@, self.registry@, source)
                            && wire.node_output_index < self.def_of(source).outputs@.len()
                            && keeps_output_count(self.def_of(source), self.executors()[source]) {
                            assert(self.evaluated(source, held, earlier[source]));
                            let values = choose|values: Vec<&NodeValue>|
                                crate::node::inputs_handed(
                                    self.nodes@[source].inputs@,
                                    held,
                                    values,
                                ) && #[trigger] self.def_of(source).yields(
                                    self.executors()[source],
                                    values,
                                    earlier[source],
                                );
                            assert(earlier[source]@.len() == self.def_of(source).outputs@.len());
                            assert(produced_values(earlier)[source] == earlier[source]@);
                            assert(held.contains_key(wire));
                        }
                        assert(is_unserved_wire(
                            self.nodes(),
                            self.registry()@,
                            self.executors(),
                            from_node,
                            wire,
                        ));
                        if outputs_as_declared(self.nodes(), self.registry()@, self.executors()) {
                            assert(wire_in_use(self.nodes@, wire));
                        }
                    }
                    return Err(
                        GraphError::InvalidWire {
                            from_node,
                            to_missing_node: wire.from_node_id,
                        },
                    );
                },
                None => {},
            }
            let results = match &self.runner {
                Some(pool) => evaluate_in_pool(pool, self, wave, &ret),
                None => self.evaluate_in_turn(wave, &ret),
            };
            let ghost fresh = Map::new(
                |v: u32| wave@.contains(v),
                |v: u32| results@[wave@.index_of(v)],
            );
            publish_wave(&mut ret, wave, results);
            proof {
                produced = earlier.union_prefer_right(fresh);
                assert(produced_values(fresh) =~= wave_outputs(wave@, results@));
                assert(produced_values(produced) =~= produced_values(earlier).union_prefer_right(
                    wave_outputs(wave@, results@),
                ));
                assert(fresh.dom() =~= wave@.to_set());
                assert(produced.dom() =~= crate::layering::placed_before(
                    self.deps(),
                    (k + 1) as nat,
                ));
                assert(ret@ =~= stored_outputs(produced_values(produced)));
                assert forall|i: int| 0 <= i < wave@.len() implies wave@.index_of(
                    #[trigger] wave@[i],
                ) == i by {}
                assert forall|output: NodeOutputRef| held.contains_key(output) implies ret@.contains_key(
                    output,
                ) && ret@[output] == held[output] by {
                    assert(earlier.contains_key(output.from_node_id));
                    if wave@.contains(output.from_node_id) {
                        let i = wave@.index_of(output.from_node_id);
                        assert(!earlier.contains_key(wave@[i]));
                    }
                }
                assert forall|v: u32| produced.contains_key(v) implies inputs_available(
                    (#[trigger] self.nodes@[v]).inputs@,
                    ret@,
                ) && self.evaluated(v, ret@, produced[v]) by {
                    if fresh.contains_key(v) {
                        let i = wave@.index_of(v);
                        assert(inputs_available(self.nodes@[wave@[i]].inputs@, held));
                        assert(self.evaluated(wave@[i], held, results@[i]));
                    } else {
                        assert(inputs_available(self.nodes@[v].inputs@, held));
                        assert(self.evaluated(v, held, earlier[v]));
                    }
                    lemma_evaluation_stable(
                        self.nodes@[v],
                        self.def_of(v),
                        self.executors()[v],
                        held,
                        ret@,
                        produced[v],
                    );
                }
            }
            k += 1;
        }
        proof {
            assert(layers.len() == waves@.len());
            assert(self.deps().dom() =~= self.nodes().dom());
            assert(produced.dom() == self.nodes().dom());
            assert(is_result_of(
                self.nodes(),
                self.registry()@,
                self.executors(),
                produced,
                ret@,
            ));
            assert(self.can_return(ret@));
        }
        Ok(ret)
    }
}

} // verus!
