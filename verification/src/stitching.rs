//! Partial-path stitching: the database of precomputed partial paths and
//! the forward stitcher that composes them into complete name bindings.
//!
//! The stitcher runs a worklist: each candidate path is extended by one
//! appendable at a time — a graph edge, or, at the root node, a partial
//! path stored in the database — and complete paths are collected. Cycle
//! detection bounds the search on cyclic graphs.

use vstd::prelude::*;

use crate::cycles::Appendables;
use crate::cycles::AppendingCycleDetector;
use crate::cycles::SimilarPathDetector;
use crate::graph::Edge;
use crate::graph::NodeHandle;
use crate::graph::NodeKind;
use crate::graph::StackGraph;
use crate::partial::spec_initial;
use crate::partial::spec_path_wf;
use crate::partial::PartialPath;
use crate::partial::PartialPathView;
use crate::CancellationError;
use crate::CancellationFlag;

verus! {

/// A handle to a partial path stored in a [`Database`].
#[derive(Clone, Copy, Debug, PartialEq, Eq, Hash, Structural)]
pub struct PartialPathHandle {
    pub index: usize,
}

/// A read-only, append-only index of precomputed partial paths, keyed by
/// their start node. The stitcher draws candidate extensions from it when
/// a path reaches the root node. Iteration follows handle order, so runs
/// over the same database are deterministic.
pub struct Database {
    pub paths: Vec<PartialPath>,
}

impl Database {
    /// Every stored partial path is well-formed with respect to `g`; in
    /// particular every stack variable of a postcondition appears in the
    /// corresponding precondition.
    pub open spec fn wf(&self, g: StackGraph) -> bool {
        forall|i: int|
            0 <= i < self.paths@.len() ==> spec_path_wf(g, (#[trigger] self.paths@[i])@)
    }

    pub fn new() -> (r: Database)
        ensures
            r.paths@.len() == 0,
    {
        Database { paths: Vec::new() }
    }

    /// The number of stored partial paths.
    pub fn len(&self) -> (r: usize)
        ensures
            r == self.paths@.len(),
    {
        self.paths.len()
    }

    /// Stores a partial path and returns its handle. Insertion is
    /// append-only: existing handles keep their meaning.
    pub fn add_partial_path(&mut self, graph: &StackGraph, path: PartialPath) -> (r:
        PartialPathHandle)
        requires
            old(self).wf(*graph),
            spec_path_wf(*graph, path@),
        ensures
            final(self).wf(*graph),
            final(self).paths@ == old(self).paths@.push(path),
            r == (PartialPathHandle { index: old(self).paths@.len() as usize }),
    {
        let r = PartialPathHandle { index: self.paths.len() };
        self.paths.push(path);
        r
    }

    /// The stored partial path behind a handle.
    pub fn get(&self, handle: PartialPathHandle) -> (r: &PartialPath)
        requires
            handle.index < self.paths@.len(),
        ensures
            r == self.paths@[handle.index as int],
    {
        &self.paths[handle.index]
    }

    /// The handles, in ascending order, of the first `n` stored paths that
    /// start at `node`.
    pub open spec fn spec_paths_starting_at_up_to(&self, node: NodeHandle, n: int) -> Seq<
        PartialPathHandle,
    >
        decreases n,
    {
        if n <= 0 {
            Seq::empty()
        } else {
            let rest = self.spec_paths_starting_at_up_to(node, n - 1);
            if self.paths@[n - 1]@.start_node == node {
                rest.push(PartialPathHandle { index: (n - 1) as usize })
            } else {
                rest
            }
        }
    }

    /// The handles, in ascending order, of all stored paths that start at
    /// `node`.
    pub open spec fn spec_paths_starting_at(&self, node: NodeHandle) -> Seq<PartialPathHandle> {
        self.spec_paths_starting_at_up_to(node, self.paths@.len() as int)
    }

    /// All stored paths starting at `node`, in handle order.
    pub fn paths_starting_at(&self, node: NodeHandle) -> (r: Vec<PartialPathHandle>)
        ensures
            r@ == self.spec_paths_starting_at(node),
            forall|i: int|
                0 <= i < r@.len() ==> (#[trigger] r@[i]).index < self.paths@.len()
                    && self.paths@[r@[i].index as int]@.start_node == node,
    {
        let mut r: Vec<PartialPathHandle> = Vec::new();
        let n = self.paths.len();
        for i in 0..n
            invariant
                n == self.paths@.len(),
                r@ == self.spec_paths_starting_at_up_to(node, i as int),
                forall|k: int|
                    0 <= k < r@.len() ==> (#[trigger] r@[k]).index < i
                        && self.paths@[r@[k].index as int]@.start_node == node,
        {
            if self.paths[i].start_node == node {
                r.push(PartialPathHandle { index: i });
            }
        }
        r
    }
}

/// The handles, in ascending order, of the first `n` stored paths that
/// end at `node`; an index used by search variants off the critical
/// path.
impl Database {
    pub open spec fn spec_paths_ending_at_up_to(&self, node: NodeHandle, n: int) -> Seq<
        PartialPathHandle,
    >
        decreases n,
    {
        if n <= 0 {
            Seq::empty()
        } else {
            let rest = self.spec_paths_ending_at_up_to(node, n - 1);
            if self.paths@[n - 1]@.end_node == node {
                rest.push(PartialPathHandle { index: (n - 1) as usize })
            } else {
                rest
            }
        }
    }

    /// The handles, in ascending order, of all stored paths that end at
    /// `node`.
    pub open spec fn spec_paths_ending_at(&self, node: NodeHandle) -> Seq<PartialPathHandle> {
        self.spec_paths_ending_at_up_to(node, self.paths@.len() as int)
    }

    /// All stored paths ending at `node`, in handle order.
    pub fn paths_ending_at(&self, node: NodeHandle) -> (r: Vec<PartialPathHandle>)
        ensures
            r@ == self.spec_paths_ending_at(node),
            forall|i: int|
                0 <= i < r@.len() ==> (#[trigger] r@[i]).index < self.paths@.len()
                    && self.paths@[r@[i].index as int]@.end_node == node,
    {
        let mut r: Vec<PartialPathHandle> = Vec::new();
        let n = self.paths.len();
        for i in 0..n
            invariant
                n == self.paths@.len(),
                r@ == self.spec_paths_ending_at_up_to(node, i as int),
                forall|k: int|
                    0 <= k < r@.len() ==> (#[trigger] r@[k]).index < i
                        && self.paths@[r@[k].index as int]@.end_node == node,
        {
            if self.paths[i].end_node == node {
                r.push(PartialPathHandle { index: i });
            }
        }
        r
    }
}

/// One candidate extension of a path: a single graph edge, or a partial
/// path stored in the database. A tagged variant rather than dynamic
/// dispatch, so the stitcher's hot loop stays monomorphic.
#[derive(Clone, Copy, Debug, PartialEq, Eq, Structural)]
pub enum Appendable {
    Edge(Edge),
    DatabasePath(PartialPathHandle),
}

/// Configuration of a stitching run. The flags tune termination behaviour
/// and telemetry; they do not change resolution semantics.
#[derive(Clone, Copy, Debug)]
pub struct StitcherConfig {
    /// Prune candidate paths that are similar to already-visited ones.
    /// Needed for termination on graphs with cycles.
    pub detect_similar_paths: bool,
    /// Collect statistics about similar-path pruning.
    pub collect_stats: bool,
    /// A hard bound on the size of a run's worklist: once this many
    /// entries have been queued, further extensions are dropped. The
    /// default leaves the bound out of reach, so it changes nothing in
    /// practice; a small value trades completeness for a strict work
    /// limit.
    pub max_work_per_tick: usize,
}

impl Default for StitcherConfig {
    fn default() -> (r: StitcherConfig)
        ensures
            r.detect_similar_paths == true,
            r.collect_stats == false,
    {
        StitcherConfig {
            detect_similar_paths: true,
            collect_stats: false,
            max_work_per_tick: usize::MAX,
        }
    }
}

/// A partial path is complete when both postcondition stacks are empty
/// with no remaining variables and it ends at a definition: applied to
/// empty caller stacks it consumes everything it pushed.
pub open spec fn spec_is_complete(g: StackGraph, p: PartialPathView) -> bool {
    &&& p.sym_post.symbols.len() == 0
    &&& p.sym_post.variable is None
    &&& p.scope_post.scopes.len() == 0
    &&& p.scope_post.variable is None
    &&& g.nodes@[p.end_node.index as int].spec_is_definition()
}

/// The edge is one of the graph's edges: it appears in the outgoing list
/// of its source node.
pub open spec fn spec_edge_of_graph(g: StackGraph, e: Edge) -> bool {
    &&& e.source.index < g.outgoing@.len()
    &&& exists|k: int|
        0 <= k < g.outgoing@[e.source.index as int]@.len() && #[trigger] g.outgoing@[
            e.source.index as int
        ]@[k] == e
}

/// The edge is a graph edge, or the implicit edge recorded when a path
/// teleports through the jump-to-scope node.
pub open spec fn spec_edge_in_graph_or_jump(g: StackGraph, e: Edge) -> bool {
    ||| spec_edge_of_graph(g, e)
    ||| (e.source.index < g.nodes@.len() && g.nodes@[e.source.index as int].kind is JumpToScope)
}

/// The edge appears in some partial path stored in the database.
pub open spec fn spec_edge_from_database(db: Database, e: Edge) -> bool {
    exists|h: int, i: int|
        #![trigger db.paths@[h]@.edges[i]]
        0 <= h < db.paths@.len() && 0 <= i < db.paths@[h]@.edges.len() && db.paths@[h]@.edges[i]
            == e
}

/// Every edge of the path comes from the graph, from a stored database
/// path, or from a jump: a stitched path never invents an edge.
pub open spec fn spec_path_edges_ok(
    g: StackGraph,
    db: Database,
    p: PartialPathView,
) -> bool {
    forall|i: int|
        0 <= i < p.edges.len() ==> spec_edge_in_graph_or_jump(g, #[trigger] p.edges[i])
            || spec_edge_from_database(db, p.edges[i])
}

/// Every edge of the path is a graph edge or a jump edge: the form taken
/// by [`spec_path_edges_ok`] when no database is consulted.
pub open spec fn spec_path_edges_in_graph(g: StackGraph, p: PartialPathView) -> bool {
    forall|i: int| 0 <= i < p.edges.len() ==> spec_edge_in_graph_or_jump(g, #[trigger] p.edges[i])
}

/// The seed node is a plain (pop-symbol) definition.
pub open spec fn spec_seed_is_plain_definition(g: StackGraph, n: NodeHandle) -> bool {
    match g.nodes@[n.index as int].kind {
        NodeKind::PopSymbol { is_definition, .. } => is_definition,
        _ => false,
    }
}

/// The initial worklist entry of a stitching run seeded at `n`: the
/// identity path at `n` with `n`'s own stack effect applied and all
/// precondition variables bound to empty stacks.
pub open spec fn spec_seed_path(g: StackGraph, n: NodeHandle) -> PartialPathView {
    crate::partial::spec_eliminate_variables(spec_initial(g, n)->Ok_0)
}

/// The forward partial-path stitcher: extends candidate paths one
/// appendable at a time, breadth first, and collects the complete ones.
pub struct ForwardPartialPathStitcher;

/// The worklist entries are well-formed: each queued path is well-formed,
/// starts at one of the seeds, and its cycle detector resolves in the
/// graph, the database and the shared arena.
pub open spec fn spec_queue_wf(
    g: StackGraph,
    db: Database,
    app: Appendables,
    starts: Seq<NodeHandle>,
    q: Seq<(PartialPath, AppendingCycleDetector)>,
) -> bool {
    forall|k: int|
        0 <= k < q.len() ==> {
            &&& spec_path_wf(g, (#[trigger] q[k]).0@)
            &&& spec_path_edges_ok(g, db, q[k].0@)
            &&& starts.contains(q[k].0@.start_node)
            &&& q[k].1.wf(g, db, app)
        }
}

/// The collected results are well-formed, complete, and start at seeds.
pub open spec fn spec_output_wf(g: StackGraph, db: Database, starts: Seq<NodeHandle>, out: Seq<PartialPath>) -> bool {
    forall|i: int|
        0 <= i < out.len() ==> {
            &&& spec_path_wf(g, (#[trigger] out[i])@)
            &&& spec_path_edges_ok(g, db, out[i]@)
            &&& spec_is_complete(g, out[i]@)
            &&& starts.contains(out[i]@.start_node)
        }
}

/// Every seed that is a plain definition is represented in the output by
/// its zero-edge complete path.
pub open spec fn spec_contains_seed_paths(
    g: StackGraph,
    starts: Seq<NodeHandle>,
    out: Seq<PartialPath>,
) -> bool {
    forall|j: int|
        0 <= j < starts.len() && spec_seed_is_plain_definition(g, #[trigger] starts[j])
            ==> exists|i: int|
            0 <= i < out.len() && (#[trigger] out[i])@ == spec_seed_path(g, starts[j])
}

/// The candidate appendable resolves in the graph and the database.
pub open spec fn spec_candidate_wf(g: StackGraph, db: Database, candidate: Appendable) -> bool {
    match candidate {
        Appendable::Edge(e) => e.source.index < g.nodes@.len() && e.sink.index < g.nodes@.len()
            && spec_edge_of_graph(g, e),
        Appendable::DatabasePath(h) => h.index < db.paths@.len(),
    }
}

/// The path a candidate appendable would extend `p` to: a graph edge is
/// appended; a stored database path is composed behind it.
pub open spec fn spec_candidate_extension(
    g: StackGraph,
    db: Database,
    p: PartialPathView,
    candidate: Appendable,
) -> Result<PartialPathView, crate::paths::PathResolutionError> {
    match candidate {
        Appendable::Edge(e) => crate::partial::spec_append(g, p, e),
        Appendable::DatabasePath(h) => crate::partial::spec_compose(p, db.paths@[h.index as int]@),
    }
}

/// A seed that is a plain (pop-symbol) definition always yields an
/// initial worklist entry, and that entry is already complete: the pop
/// demands the seed's symbol from the precondition, leaving both
/// postcondition stacks empty at a definition.
proof fn lemma_seed_path_complete(g: StackGraph, n: NodeHandle)
    requires
        g.wf(),
        n.index < g.nodes@.len(),
        spec_seed_is_plain_definition(g, n),
    ensures
        spec_initial(g, n) is Ok,
        spec_is_complete(g, spec_seed_path(g, n)),
{
    let id = crate::partial::spec_from_node(n);
    assert(id.sym_post.symbols.len() == 0);
    assert(id.sym_post.variable is Some);
    let q = crate::partial::spec_apply_node(g, id, n)->Ok_0;
    assert(q.sym_post.symbols.len() == 0);
    assert(q.scope_post.scopes.len() == 0);
    assert(q.end_node == n);
}

/// One candidate extension of the current path: clone, extend by the
/// appendable, check for cycles and similarity, and enqueue survivors.
/// Already-queued entries are never touched.
fn extend_with<C: CancellationFlag>(
    graph: &StackGraph,
    db: &Database,
    appendables: &Appendables,
    similar: &mut SimilarPathDetector,
    config: StitcherConfig,
    cancellation_flag: &C,
    cap: usize,
    queue: &mut Vec<(PartialPath, AppendingCycleDetector)>,
    Ghost(starts_g): Ghost<Seq<NodeHandle>>,
    cur: &PartialPath,
    cur_cd: &AppendingCycleDetector,
    candidate: Appendable,
) -> (r: Result<(), CancellationError>)
    requires
        graph.wf(),
        db.wf(*graph),
        appendables.wf(*graph),
        old(similar).wf(),
        spec_path_wf(*graph, cur@),
        spec_path_edges_ok(*graph, *db, cur@),
        starts_g.contains(cur@.start_node),
        cur_cd.wf(*graph, *db, *appendables),
        spec_candidate_wf(*graph, *db, candidate),
        spec_queue_wf(*graph, *db, *appendables, starts_g, old(queue)@),
    ensures
        final(similar).wf(),
        cancellation_flag.spec_never_cancels() ==> r is Ok,
        r is Ok ==> {
            &&& spec_queue_wf(*graph, *db, *appendables, starts_g, final(queue)@)
            &&& old(queue)@.len() <= final(queue)@.len()
            &&& forall|k: int| 0 <= k < old(queue)@.len() ==> final(queue)@[k] == old(queue)@[k]
            &&& final(queue)@.len() <= old(queue)@.len() || (old(queue)@.len() < cap
                && final(queue)@.len() == old(queue)@.len() + 1)
        },
        r is Ok && old(queue)@.len() < cap && spec_candidate_extension(*graph, *db, cur@, candidate)
            is Ok && crate::cycles::spec_scan_cycles(
            *graph,
            *db,
            *appendables,
            cur_cd.appendages@.push(crate::cycles::InternedOrHandle::Database(candidate)),
            cur_cd.appendages@.len() as int + 1,
            crate::cycles::spec_ioh_end(
                crate::cycles::InternedOrHandle::Database(candidate),
                *graph,
                *db,
                *appendables,
            ),
            None,
            crate::cycles::CyclicitySet {
                free: false,
                strengthens_postcondition: false,
                loops_at_end: false,
            },
        ) == Ok::<crate::cycles::CyclicitySet, crate::paths::PathResolutionError>(
            crate::cycles::CyclicitySet {
                free: false,
                strengthens_postcondition: false,
                loops_at_end: false,
            },
        ) ==> ({
            let c = spec_candidate_extension(*graph, *db, cur@, candidate)->Ok_0;
            ||| (final(queue)@.len() == old(queue)@.len() + 1 && final(queue)@[old(
                queue,
            )@.len() as int].0@ == c)
            ||| (config.detect_similar_paths && old(similar).spec_retains_similar_for_key(
                crate::cycles::spec_key_of(c),
                c,
            ))
        }),
        r is Ok ==> forall|i: int, jx: int|
            0 <= i < final(similar).buckets@.len() && 0 <= jx
                < final(similar).buckets@[i].1@.len() ==> old(similar).spec_retains_exact(
                (#[trigger] final(similar).buckets@[i].1@[jx])@,
            ) || (final(queue)@.len() == old(queue)@.len() + 1 && final(queue)@[old(
                queue,
            )@.len() as int].0@ == final(similar).buckets@[i].1@[jx]@),
        r is Err ==> *final(queue) == *old(queue),
{
    if queue.len() >= cap {
        // the work bound is reached: drop the extension
        return Ok(());
    }
    let mut np = cur.clone();
    let extended: bool = match candidate {
        Appendable::Edge(e) => {
            let res = np.append(graph, e);
            proof {
                if res is Ok {
                    crate::partial::lemma_apply_node_wf(*graph, cur@, e.sink);
                    assert(np@.start_node == cur@.start_node);
                    assert forall|i: int|
                        0 <= i < np@.edges.len() implies spec_edge_in_graph_or_jump(
                        *graph,
                        #[trigger] np@.edges[i],
                    ) || spec_edge_from_database(*db, np@.edges[i]) by {
                        if i < cur@.edges.len() {
                            assert(np@.edges[i] == cur@.edges[i]);
                        } else if i == cur@.edges.len() {
                            assert(np@.edges[i] == e);
                        } else {
                            assert(graph.nodes@[e.sink.index as int].kind is JumpToScope);
                            assert(np@.edges[i].source == e.sink);
                        }
                    }
                    assert(spec_path_edges_ok(*graph, *db, np@));
                }
            }
            res.is_ok()
        },
        Appendable::DatabasePath(h) => {
            let res = db.get(h).append_to(graph, &mut np);
            proof {
                if res is Ok {
                    assert(np@.start_node == cur@.start_node);
                    let dbp = db.paths@[h.index as int]@;
                    assert forall|i: int|
                        0 <= i < np@.edges.len() implies spec_edge_in_graph_or_jump(
                        *graph,
                        #[trigger] np@.edges[i],
                    ) || spec_edge_from_database(*db, np@.edges[i]) by {
                        if i < cur@.edges.len() {
                            assert(np@.edges[i] == cur@.edges[i]);
                        } else {
                            assert(np@.edges[i] == dbp.edges[i - cur@.edges.len()]);
                            assert(db.paths@[h.index as int]@.edges[i - cur@.edges.len()]
                                == np@.edges[i]);
                        }
                    }
                    assert(spec_path_edges_ok(*graph, *db, np@));
                }
            }
            res.is_ok()
        },
    };
    if !extended {
        return Ok(());
    }
    let mut ncd = cur_cd.clone();
    ncd.append(candidate);
    proof {
        assert(ncd.wf(*graph, *db, *appendables)) by {
            assert(forall|i: int|
                0 <= i < cur_cd.appendages@.len() ==> crate::cycles::spec_ioh_wf(
                    #[trigger] cur_cd.appendages@[i],
                    *graph,
                    *db,
                    *appendables,
                ));
        }
    }
    let keep: bool = match ncd.is_cyclic(graph, db, appendables) {
        Ok(set) => set.is_empty(),
        Err(_) => false,
    };
    if !keep {
        return Ok(());
    }
    if config.detect_similar_paths {
        if similar.add_path(&np) {
            return Ok(());
        }
    }
    match cancellation_flag.check("enqueue") {
        Ok(()) => {},
        Err(e) => {
            return Err(e);
        },
    }
    let ghost q_before = queue@;
    queue.push((np, ncd));
    proof {
        assert forall|k: int| 0 <= k < queue@.len() implies {
            &&& spec_path_wf(*graph, (#[trigger] queue@[k]).0@)
            &&& spec_path_edges_ok(*graph, *db, queue@[k].0@)
            &&& starts_g.contains(queue@[k].0@.start_node)
            &&& queue@[k].1.wf(*graph, *db, *appendables)
        } by {
            if k < q_before.len() {
                assert(queue@[k] == q_before[k]);
                assert(spec_path_wf(*graph, q_before[k].0@));
                assert(spec_path_edges_ok(*graph, *db, q_before[k].0@));
                assert(starts_g.contains(q_before[k].0@.start_node));
                assert(q_before[k].1.wf(*graph, *db, *appendables));
            }
        }
    }
    Ok(())
}

impl ForwardPartialPathStitcher {
    /// Finds all complete partial paths reachable from the seed nodes.
    ///
    /// Each seed contributes an initial path carrying the seed's own
    /// stack effect, with its precondition variables bound to empty
    /// stacks. Candidates for extension are the outgoing edges of a
    /// path's end node, plus, when the path has reached the root node,
    /// every database path starting at the root. Extensions that close a
    /// cycle, and extensions similar to already-visited paths, are
    /// dropped, which bounds the search on cyclic graphs; the worklist is
    /// additionally capped at `max_work_per_tick` entries. It is
    /// processed first-in-first-out, so for a fixed graph, database, seed
    /// list and configuration the result is deterministic.
    ///
    /// Every returned path is well-formed and complete and starts at one
    /// of the seeds; a seed that is itself a plain definition contributes
    /// its zero-edge complete path. The run is abandoned only when the
    /// cancellation flag fires at one of its checkpoints, so a flag that
    /// never cancels makes the run return `Ok`.
    pub fn find_all_complete_partial_paths<C: CancellationFlag>(
        graph: &StackGraph,
        db: &Database,
        starts: &Vec<NodeHandle>,
        config: StitcherConfig,
        cancellation_flag: &C,
    ) -> (r: Result<Vec<PartialPath>, CancellationError>)
        requires
            graph.wf(),
            db.wf(*graph),
            forall|i: int|
                0 <= i < starts@.len() ==> (#[trigger] starts@[i]).index < graph.nodes@.len(),
        ensures
            cancellation_flag.spec_never_cancels() ==> r is Ok,
            cancellation_flag.spec_always_cancels() && (exists|j: int|
                0 <= j < starts@.len() && spec_initial(*graph, #[trigger] starts@[j]) is Ok)
                ==> r is Err,
            r is Ok ==> spec_output_wf(*graph, *db, starts@, r->Ok_0@),
            r is Ok ==> spec_contains_seed_paths(*graph, starts@, r->Ok_0@),
            r is Ok && (forall|i: int|
                0 <= i < graph.nodes@.len() ==> !(#[trigger] graph.nodes@[i]).spec_is_definition())
                ==> r->Ok_0@.len() == 0,
    {
        let ghost starts_g = starts@;
        let mut appendables = Appendables::new();
        let mut similar = SimilarPathDetector::new();
        if config.collect_stats {
            similar.set_collect_stats(true);
        }
        let mut queue: Vec<(PartialPath, AppendingCycleDetector)> = Vec::new();
        let mut output: Vec<PartialPath> = Vec::new();
        let ns = starts.len();
        for si in 0..ns
            invariant
                graph.wf(),
                db.wf(*graph),
                ns == starts@.len(),
                starts_g == starts@,
                forall|i: int|
                    0 <= i < starts@.len() ==> (#[trigger] starts@[i]).index < graph.nodes@.len(),
                appendables.wf(*graph),
                similar.wf(),
                output@.len() == 0,
                queue@.len() <= si,
                spec_queue_wf(*graph, *db, appendables, starts_g, queue@),
                forall|j: int|
                    0 <= j < si && spec_seed_is_plain_definition(*graph, #[trigger] starts@[j])
                        ==> exists|k: int|
                        0 <= k < queue@.len() && (#[trigger] queue@[k]).0@ == spec_seed_path(
                            *graph,
                            starts@[j],
                        ),
                forall|j: int|
                    0 <= j < si && spec_initial(*graph, #[trigger] starts@[j]) is Ok
                        ==> queue@.len() >= 1,
        {
            let seed = starts[si];
            let ghost q_before = queue@;
            match PartialPath::initial(graph, seed) {
                Ok(mut p) => {
                    p.eliminate_precondition_stack_variables();
                    proof {
                        assert(spec_path_wf(*graph, p@));
                        assert(p@ == spec_seed_path(*graph, seed));
                    }
                    let ghost app_before = appendables;
                    let cd = AppendingCycleDetector::from(&mut appendables, p.clone());
                    queue.push((p, cd));
                    proof {
                        assert(starts@[si as int] == seed);
                        assert(starts_g.contains(seed));
                        assert forall|k: int| 0 <= k < queue@.len() implies {
                            &&& spec_path_wf(*graph, (#[trigger] queue@[k]).0@)
                            &&& starts_g.contains(queue@[k].0@.start_node)
                            &&& queue@[k].1.wf(*graph, *db, appendables)
                        } by {
                            if k < q_before.len() {
                                assert(queue@[k] == q_before[k]);
                                assert(q_before[k].1.wf(*graph, *db, app_before));
                                assert forall|x: int|
                                    0 <= x < q_before[k].1.appendages@.len()
                                        implies crate::cycles::spec_ioh_wf(
                                    #[trigger] q_before[k].1.appendages@[x],
                                    *graph,
                                    *db,
                                    appendables,
                                ) by {
                                    assert(crate::cycles::spec_ioh_wf(
                                        q_before[k].1.appendages@[x],
                                        *graph,
                                        *db,
                                        app_before,
                                    ));
                                }
                            } else {
                                assert(queue@[k].1.appendages@ == seq![
                                    crate::cycles::InternedOrHandle::Interned(
                                        app_before.interned@.len() as usize,
                                    ),
                                ]);
                            }
                        }
                        assert forall|j: int|
                            0 <= j < si + 1 && spec_seed_is_plain_definition(
                                *graph,
                                #[trigger] starts@[j],
                            ) implies exists|k: int|
                            0 <= k < queue@.len() && (#[trigger] queue@[k]).0@ == spec_seed_path(
                                *graph,
                                starts@[j],
                            ) by {
                            if j < si as int {
                                let kw = choose|k: int|
                                    0 <= k < q_before.len() && (#[trigger] q_before[k]).0@
                                        == spec_seed_path(*graph, starts@[j]);
                                assert(queue@[kw] == q_before[kw]);
                                assert(queue@[kw].0@ == spec_seed_path(*graph, starts@[j]));
                            } else {
                                assert(queue@[queue@.len() - 1].0@ == spec_seed_path(
                                    *graph,
                                    starts@[j],
                                ));
                            }
                        }
                    }
                },
                Err(_) => {
                    proof {
                        if spec_seed_is_plain_definition(*graph, seed) {
                            lemma_seed_path_complete(*graph, seed);
                            assert(false);
                        }
                    }
                },
            }
        }
        proof {
            if exists|j: int|
                0 <= j < starts@.len() && spec_initial(*graph, #[trigger] starts@[j]) is Ok {
                let jw = choose|j: int|
                    0 <= j < starts@.len() && spec_initial(*graph, #[trigger] starts@[j]) is Ok;
                assert(queue@.len() >= 1);
            }
        }
        let bound: usize = if ns > config.max_work_per_tick {
            ns
        } else {
            config.max_work_per_tick
        };
        let mut head: usize = 0;
        while head < queue.len()
            invariant
                (exists|j: int|
                    0 <= j < starts@.len() && spec_initial(*graph, #[trigger] starts@[j]) is Ok)
                    ==> queue@.len() >= 1,
                cancellation_flag.spec_always_cancels() ==> head == 0,
                queue@.len() <= bound,
                graph.wf(),
                db.wf(*graph),
                appendables.wf(*graph),
                similar.wf(),
                starts_g == starts@,
                head <= queue@.len(),
                forall|i: int|
                    0 <= i < starts@.len() ==> (#[trigger] starts@[i]).index < graph.nodes@.len(),
                spec_queue_wf(*graph, *db, appendables, starts_g, queue@),
                spec_output_wf(*graph, *db, starts_g, output@),
                forall|j: int|
                    0 <= j < starts@.len() && spec_seed_is_plain_definition(
                        *graph,
                        #[trigger] starts@[j],
                    ) ==> (exists|k: int|
                        head <= k < queue@.len() && (#[trigger] queue@[k]).0@ == spec_seed_path(
                            *graph,
                            starts@[j],
                        )) || (exists|i: int|
                        0 <= i < output@.len() && (#[trigger] output@[i])@ == spec_seed_path(
                            *graph,
                            starts@[j],
                        )),
            decreases bound - head,
        {
            match cancellation_flag.check("dequeue") {
                Ok(()) => {},
                Err(e) => {
                    return Err(e);
                },
            }
            let ghost q0 = queue@;
            let ghost out0 = output@;
            let ghost head0 = head as int;
            let cur = queue[head].0.clone();
            let cur_cd = queue[head].1.clone();
            proof {
                assert(cur@ == q0[head0].0@);
                assert(cur_cd.wf(*graph, *db, appendables)) by {
                    assert(cur_cd.appendages@ == q0[head0].1.appendages@);
                    assert(q0[head0].1.wf(*graph, *db, appendables));
                }
            }
            let is_complete: bool = cur.symbol_stack_postcondition.len() == 0
                && !cur.symbol_stack_postcondition.has_variable()
                && cur.scope_stack_postcondition.len() == 0
                && !cur.scope_stack_postcondition.has_variable() && graph.node(
                cur.end_node,
            ).is_definition();
            proof {
                assert(is_complete == spec_is_complete(*graph, cur@));
            }
            if is_complete {
                output.push(cur);
                head += 1;
                proof {
                    assert forall|j: int|
                        0 <= j < starts@.len() && spec_seed_is_plain_definition(
                            *graph,
                            #[trigger] starts@[j],
                        ) implies (exists|k: int|
                        head <= k < queue@.len() && (#[trigger] queue@[k]).0@ == spec_seed_path(
                            *graph,
                            starts@[j],
                        )) || (exists|i: int|
                        0 <= i < output@.len() && (#[trigger] output@[i])@ == spec_seed_path(
                            *graph,
                            starts@[j],
                        )) by {
                        let sp = spec_seed_path(*graph, starts@[j]);
                        if exists|k: int|
                            head0 <= k < q0.len() && (#[trigger] q0[k]).0@ == sp {
                            let kw = choose|k: int|
                                head0 <= k < q0.len() && (#[trigger] q0[k]).0@ == sp;
                            if kw == head0 {
                                assert(output@[output@.len() - 1]@ == cur@);
                                assert(cur@ == sp);
                            } else {
                                assert(queue@[kw].0@ == sp);
                            }
                        } else if exists|i: int|
                            0 <= i < out0.len() && (#[trigger] out0[i])@ == sp {
                            let iw = choose|i: int|
                                0 <= i < out0.len() && (#[trigger] out0[i])@ == sp;
                            assert(output@[iw]@ == sp);
                        }
                    }
                }
                continue ;
            }
            match cancellation_flag.check("enumerate") {
                Ok(()) => {},
                Err(e) => {
                    return Err(e);
                },
            }
            let m = graph.outgoing_edges(cur.end_node).len();
            for ei in 0..m
                invariant
                    graph.wf(),
                    db.wf(*graph),
                    appendables.wf(*graph),
                    similar.wf(),
                    starts_g == starts@,
                    head < q0.len(),
                    m == graph.outgoing@[cur@.end_node.index as int]@.len(),
                    spec_path_wf(*graph, cur@),
                    spec_path_edges_ok(*graph, *db, cur@),
                    starts_g.contains(cur@.start_node),
                    cur_cd.wf(*graph, *db, appendables),
                    cur@.end_node.index < graph.nodes@.len(),
                    forall|i: int|
                        0 <= i < starts@.len() ==> (#[trigger] starts@[i]).index
                            < graph.nodes@.len(),
                    spec_queue_wf(*graph, *db, appendables, starts_g, queue@),
                    queue@.len() <= bound,
                    q0.len() <= queue@.len(),
                    forall|k: int| 0 <= k < q0.len() ==> queue@[k] == q0[k],
            {
                let edge = graph.outgoing_edges(cur.end_node)[ei];
                proof {
                    assert(graph.edge_wf(edge));
                    assert(spec_edge_of_graph(*graph, edge)) by {
                        assert(graph.outgoing@[cur@.end_node.index as int]@[ei as int] == edge);
                    }
                }
                match extend_with(
                    graph,
                    db,
                    &appendables,
                    &mut similar,
                    config,
                    cancellation_flag,
                    bound,
                    &mut queue,
                    Ghost(starts_g),
                    &cur,
                    &cur_cd,
                    Appendable::Edge(edge),
                ) {
                    Ok(()) => {},
                    Err(e) => {
                        return Err(e);
                    },
                }
            }
            let root = StackGraph::root_node();
            if cur.end_node == root {
                let handles = db.paths_starting_at(cur.end_node);
                let hn = handles.len();
                for hi in 0..hn
                    invariant
                        graph.wf(),
                        db.wf(*graph),
                        appendables.wf(*graph),
                        similar.wf(),
                        starts_g == starts@,
                        head < q0.len(),
                        hn == handles@.len(),
                        forall|x: int|
                            0 <= x < handles@.len() ==> (#[trigger] handles@[x]).index
                                < db.paths@.len(),
                        spec_path_wf(*graph, cur@),
                        spec_path_edges_ok(*graph, *db, cur@),
                        starts_g.contains(cur@.start_node),
                        cur_cd.wf(*graph, *db, appendables),
                        forall|i: int|
                            0 <= i < starts@.len() ==> (#[trigger] starts@[i]).index
                                < graph.nodes@.len(),
                        spec_queue_wf(*graph, *db, appendables, starts_g, queue@),
                        queue@.len() <= bound,
                        q0.len() <= queue@.len(),
                        forall|k: int| 0 <= k < q0.len() ==> queue@[k] == q0[k],
                {
                    let h = handles[hi];
                    match extend_with(
                        graph,
                        db,
                        &appendables,
                        &mut similar,
                        config,
                        cancellation_flag,
                        bound,
                        &mut queue,
                        Ghost(starts_g),
                        &cur,
                        &cur_cd,
                        Appendable::DatabasePath(h),
                    ) {
                        Ok(()) => {},
                        Err(e) => {
                            return Err(e);
                        },
                    }
                }
            }
            head += 1;
            proof {
                assert forall|j: int|
                    0 <= j < starts@.len() && spec_seed_is_plain_definition(
                        *graph,
                        #[trigger] starts@[j],
                    ) implies (exists|k: int|
                    head <= k < queue@.len() && (#[trigger] queue@[k]).0@ == spec_seed_path(
                        *graph,
                        starts@[j],
                    )) || (exists|i: int|
                    0 <= i < output@.len() && (#[trigger] output@[i])@ == spec_seed_path(
                        *graph,
                        starts@[j],
                    )) by {
                    let sp = spec_seed_path(*graph, starts@[j]);
                    if exists|k: int| head0 <= k < q0.len() && (#[trigger] q0[k]).0@ == sp {
                        let kw = choose|k: int|
                            head0 <= k < q0.len() && (#[trigger] q0[k]).0@ == sp;
                        if kw == head0 {
                            lemma_seed_path_complete(*graph, starts@[j]);
                            assert(cur@ == q0[head0].0@);
                            assert(spec_is_complete(*graph, cur@));
                            assert(false);
                        } else {
                            assert(queue@[kw] == q0[kw]);
                            assert(queue@[kw].0@ == sp);
                        }
                    } else if exists|i: int|
                        0 <= i < out0.len() && (#[trigger] out0[i])@ == sp {
                        let iw = choose|i: int| 0 <= i < out0.len() && (#[trigger] out0[i])@ == sp;
                        assert(output@[iw]@ == sp);
                    }
                }
            }
        }
        proof {
            assert forall|j: int|
                0 <= j < starts@.len() && spec_seed_is_plain_definition(
                    *graph,
                    #[trigger] starts@[j],
                ) implies exists|i: int|
                0 <= i < output@.len() && (#[trigger] output@[i])@ == spec_seed_path(
                    *graph,
                    starts@[j],
                ) by {
                assert(head >= queue@.len());
            }
            assert(spec_contains_seed_paths(*graph, starts@, output@));
            if forall|i: int|
                0 <= i < graph.nodes@.len() ==> !(#[trigger] graph.nodes@[i]).spec_is_definition() {
                if output@.len() > 0 {
                    assert(spec_is_complete(*graph, output@[0]@));
                    assert(spec_path_wf(*graph, output@[0]@));
                    assert(false);
                }
            }
            if cancellation_flag.spec_always_cancels() && (exists|j: int|
                0 <= j < starts@.len() && spec_initial(*graph, #[trigger] starts@[j]) is Ok) {
                assert(head == 0);
                assert(queue@.len() >= 1);
                assert(false);
            }
        }
        Ok(output)
    }
}

/// The node can seed or end a within-file partial path: the root, a
/// definition, or an exported scope.
pub open spec fn spec_is_file_endpoint(g: StackGraph, n: NodeHandle) -> bool {
    ||| n == (NodeHandle { index: 0 })
    ||| g.nodes@[n.index as int].spec_is_definition()
    ||| g.nodes@[n.index as int].spec_is_exported_scope()
}

impl ForwardPartialPathStitcher {
    /// Computes the within-file partial paths of `file`: the fragments
    /// that cross-file stitching later composes at the root.
    ///
    /// The search is seeded at the root and at every reference and
    /// exported scope of the file, with stack variables kept open so that
    /// pops accumulate preconditions. It extends paths only along edges
    /// that stay in the file or lead to the root or the jump-to-scope
    /// node, and stops at the root, which is the file's boundary. Every
    /// path that has taken at least one edge and ends at the root, a
    /// definition, or an exported scope is emitted.
    pub fn find_all_partial_paths_in_file<C: CancellationFlag>(
        graph: &StackGraph,
        file: crate::graph::FileHandle,
        cancellation_flag: &C,
    ) -> (r: Result<Vec<PartialPath>, CancellationError>)
        requires
            graph.wf(),
        ensures
            cancellation_flag.spec_never_cancels() ==> r is Ok,
            cancellation_flag.spec_always_cancels() ==> r is Err,
            r is Ok ==> forall|i: int|
                0 <= i < r->Ok_0@.len() ==> {
                    &&& spec_path_wf(*graph, (#[trigger] r->Ok_0@[i])@)
                    &&& spec_path_edges_in_graph(*graph, r->Ok_0@[i]@)
                    &&& r->Ok_0@[i]@.edges.len() > 0
                    &&& spec_is_file_endpoint(*graph, r->Ok_0@[i]@.end_node)
                },
    {
        let empty_db = Database::new();
        let mut appendables = Appendables::new();
        let mut similar = SimilarPathDetector::new();
        let mut seeds: Vec<NodeHandle> = Vec::new();
        seeds.push(StackGraph::root_node());
        proof {
            assert(seeds@[0] == (NodeHandle { index: 0 }));
        }
        let file_nodes = graph.nodes_for_file(file);
        proof {
            lemma_nodes_for_file_bounds(*graph, file);
        }
        let fn_count = file_nodes.len();
        for i in 0..fn_count
            invariant
                graph.wf(),
                fn_count == file_nodes@.len(),
                seeds@.len() >= 1,
                seeds@[0] == (NodeHandle { index: 0 }),
                forall|k: int|
                    0 <= k < file_nodes@.len() ==> (#[trigger] file_nodes@[k]).index
                        < graph.nodes@.len(),
                forall|k: int|
                    0 <= k < seeds@.len() ==> (#[trigger] seeds@[k]).index < graph.nodes@.len(),
        {
            let n = file_nodes[i];
            if graph.node(n).is_reference() || graph.node(n).is_exported_scope() {
                seeds.push(n);
            }
        }
        let ghost starts_g = seeds@;
        let mut queue: Vec<(PartialPath, AppendingCycleDetector)> = Vec::new();
        let mut output: Vec<PartialPath> = Vec::new();
        let ns = seeds.len();
        for si in 0..ns
            invariant
                graph.wf(),
                empty_db.paths@.len() == 0,
                ns == seeds@.len(),
                starts_g == seeds@,
                forall|i: int|
                    0 <= i < seeds@.len() ==> (#[trigger] seeds@[i]).index < graph.nodes@.len(),
                seeds@.len() >= 1,
                seeds@[0] == (NodeHandle { index: 0 }),
                si > 0 ==> queue@.len() >= 1,
                appendables.wf(*graph),
                similar.wf(),
                spec_queue_wf(*graph, empty_db, appendables, starts_g, queue@),
        {
            let seed = seeds[si];
            let ghost q_before = queue@;
            proof {
                if si == 0 {
                    assert(seed == (NodeHandle { index: 0 }));
                    assert(spec_initial(*graph, seed) is Ok);
                }
            }
            match PartialPath::initial(graph, seed) {
                Ok(p) => {
                    let ghost app_before = appendables;
                    let cd = AppendingCycleDetector::from(&mut appendables, p.clone());
                    queue.push((p, cd));
                    proof {
                        assert(starts_g.contains(seeds@[si as int]));
                        assert forall|k: int| 0 <= k < queue@.len() implies {
                            &&& spec_path_wf(*graph, (#[trigger] queue@[k]).0@)
                            &&& starts_g.contains(queue@[k].0@.start_node)
                            &&& queue@[k].1.wf(*graph, empty_db, appendables)
                        } by {
                            if k < q_before.len() {
                                assert(queue@[k] == q_before[k]);
                                assert(q_before[k].1.wf(*graph, empty_db, app_before));
                                assert forall|x: int|
                                    0 <= x < q_before[k].1.appendages@.len()
                                        implies crate::cycles::spec_ioh_wf(
                                    #[trigger] q_before[k].1.appendages@[x],
                                    *graph,
                                    empty_db,
                                    appendables,
                                ) by {
                                    assert(crate::cycles::spec_ioh_wf(
                                        q_before[k].1.appendages@[x],
                                        *graph,
                                        empty_db,
                                        app_before,
                                    ));
                                }
                            } else {
                                assert(queue@[k].1.appendages@ == seq![
                                    crate::cycles::InternedOrHandle::Interned(
                                        app_before.interned@.len() as usize,
                                    ),
                                ]);
                            }
                        }
                    }
                },
                Err(_) => {},
            }
        }
        let bound: usize = usize::MAX;
        let mut head: usize = 0;
        let initial_len = queue.len();
        proof {
            assert(queue@.len() == initial_len as int);
            assert(initial_len >= 1);
        }
        while head < queue.len()
            invariant
                initial_len >= 1,
                initial_len as int <= queue@.len(),
                cancellation_flag.spec_always_cancels() ==> head == 0,
                graph.wf(),
                empty_db.paths@.len() == 0,
                appendables.wf(*graph),
                similar.wf(),
                head <= queue@.len(),
                queue@.len() <= bound,
                bound == usize::MAX,
                spec_queue_wf(*graph, empty_db, appendables, starts_g, queue@),
                forall|i: int|
                    0 <= i < output@.len() ==> {
                        &&& spec_path_wf(*graph, (#[trigger] output@[i])@)
                        &&& spec_path_edges_in_graph(*graph, output@[i]@)
                        &&& output@[i]@.edges.len() > 0
                        &&& spec_is_file_endpoint(*graph, output@[i]@.end_node)
                    },
            decreases bound - head,
        {
            match cancellation_flag.check("dequeue") {
                Ok(()) => {},
                Err(e) => {
                    return Err(e);
                },
            }
            let ghost q0 = queue@;
            let cur = queue[head].0.clone();
            let cur_cd = queue[head].1.clone();
            proof {
                assert(cur@ == q0[head as int].0@);
                assert(cur_cd.wf(*graph, empty_db, appendables)) by {
                    assert(cur_cd.appendages@ == q0[head as int].1.appendages@);
                    assert(q0[head as int].1.wf(*graph, empty_db, appendables));
                }
            }
            let root = StackGraph::root_node();
            let jump = StackGraph::jump_to_node();
            let at_endpoint: bool = cur.end_node == root || graph.node(cur.end_node).is_definition()
                || graph.node(cur.end_node).is_exported_scope();
            if at_endpoint && cur.edges.len() > 0 {
                proof {
                    assert(spec_path_edges_ok(*graph, empty_db, cur@));
                    assert forall|i: int|
                        0 <= i < cur@.edges.len() implies spec_edge_in_graph_or_jump(
                        *graph,
                        #[trigger] cur@.edges[i],
                    ) by {
                        if spec_edge_from_database(empty_db, cur@.edges[i]) {
                            assert(false);
                        }
                    }
                }
                output.push(cur.clone());
            }
            let stop_at_root: bool = cur.end_node == root && cur.edges.len() > 0;
            if !stop_at_root {
                match cancellation_flag.check("enumerate") {
                    Ok(()) => {},
                    Err(e) => {
                        return Err(e);
                    },
                }
                let m = graph.outgoing_edges(cur.end_node).len();
                for ei in 0..m
                    invariant
                        graph.wf(),
                        empty_db.paths@.len() == 0,
                        appendables.wf(*graph),
                        similar.wf(),
                        head < q0.len(),
                        m == graph.outgoing@[cur@.end_node.index as int]@.len(),
                        spec_path_wf(*graph, cur@),
                        spec_path_edges_ok(*graph, empty_db, cur@),
                        starts_g.contains(cur@.start_node),
                        cur_cd.wf(*graph, empty_db, appendables),
                        cur@.end_node.index < graph.nodes@.len(),
                        spec_queue_wf(*graph, empty_db, appendables, starts_g, queue@),
                        queue@.len() <= bound,
                        q0.len() <= queue@.len(),
                {
                    let edge = graph.outgoing_edges(cur.end_node)[ei];
                    proof {
                        assert(graph.edge_wf(edge));
                        assert(spec_edge_of_graph(*graph, edge)) by {
                            assert(graph.outgoing@[cur@.end_node.index as int]@[ei as int]
                                == edge);
                        }
                    }
                    let sink_in_file: bool = match graph.node(edge.sink).id.file {
                        Some(f) => f == file,
                        None => false,
                    };
                    let allowed = sink_in_file || edge.sink == root || edge.sink == jump;
                    if allowed {
                        match extend_with(
                            graph,
                            &empty_db,
                            &appendables,
                            &mut similar,
                            StitcherConfig {
                                detect_similar_paths: true,
                                collect_stats: false,
                                max_work_per_tick: usize::MAX,
                            },
                            cancellation_flag,
                            bound,
                            &mut queue,
                            Ghost(starts_g),
                            &cur,
                            &cur_cd,
                            Appendable::Edge(edge),
                        ) {
                            Ok(()) => {},
                            Err(e) => {
                                return Err(e);
                            },
                        }
                    }
                }
            }
            head += 1;
        }
        proof {
            if cancellation_flag.spec_always_cancels() {
                assert(head == 0);
                assert(queue@.len() >= 1);
                assert(false);
            }
        }
        Ok(output)
    }
}

/// Every handle returned by `nodes_for_file` resolves in the graph.
proof fn lemma_nodes_for_file_bounds(g: StackGraph, file: crate::graph::FileHandle)
    requires
        g.wf(),
    ensures
        forall|k: int|
            0 <= k < g.spec_nodes_for_file(file).len() ==> (#[trigger] g.spec_nodes_for_file(file)[
                k
            ]).index < g.nodes@.len(),
{
    lemma_nodes_for_file_bounds_up_to(g, file, g.nodes@.len() as int);
}

proof fn lemma_nodes_for_file_bounds_up_to(g: StackGraph, file: crate::graph::FileHandle, n: int)
    requires
        n <= g.nodes@.len(),
    ensures
        forall|k: int|
            0 <= k < g.spec_nodes_for_file_up_to(file, n).len() ==> (
            #[trigger] g.spec_nodes_for_file_up_to(file, n)[k]).index < g.nodes@.len(),
    decreases n,
{
    if n > 0 {
        lemma_nodes_for_file_bounds_up_to(g, file, n - 1);
        let rest = g.spec_nodes_for_file_up_to(file, n - 1);
        let whole = g.spec_nodes_for_file_up_to(file, n);
        assert forall|k: int|
            0 <= k < whole.len() implies (#[trigger] whole[k]).index < g.nodes@.len() by {
            if k < rest.len() {
                assert(whole[k] == rest[k]);
            }
        }
    }
}

} // verus!
