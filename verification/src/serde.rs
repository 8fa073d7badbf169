//! Serialisable graph data and filters for selective serialisation.
//!
//! The graph's arena-backed representation is mirrored by a plain-data
//! form that an encoder of the caller's choice can write out. Loading
//! validates the data and reconstructs a graph equal to the one the data
//! was taken from, so a serialise-then-load round trip preserves every
//! file, node, edge and source span. Filters control which elements are
//! included when serialising.

use vstd::prelude::*;

use crate::graph::Edge;
use crate::graph::FileHandle;
use crate::graph::Node;
use crate::graph::NodeHandle;
use crate::graph::NodeID;
use crate::graph::NodeKind;
use crate::graph::SourceInfo;
use crate::partial::PartialPath;

verus! {

/// Controls which elements of a stack graph are included during
/// serialisation. Exclusions cascade: a filter is normally wrapped in
/// [`ImplicationFilter`], which excludes the dependents of everything the
/// underlying filter excludes.
pub trait Filter {
    spec fn spec_include_file(&self, g: &crate::graph::StackGraph, file: FileHandle) -> bool;

    spec fn spec_include_node(&self, g: &crate::graph::StackGraph, node: NodeHandle) -> bool;

    spec fn spec_include_edge(
        &self,
        g: &crate::graph::StackGraph,
        source: NodeHandle,
        sink: NodeHandle,
    ) -> bool;

    spec fn spec_include_partial_path(
        &self,
        g: &crate::graph::StackGraph,
        path: &PartialPath,
    ) -> bool;

    /// Whether elements of the given file should be included.
    fn include_file(&self, graph: &crate::graph::StackGraph, file: &FileHandle) -> (r: bool)
        ensures
            r == self.spec_include_file(graph, *file),
    ;

    /// Whether the given node should be included.
    fn include_node(&self, graph: &crate::graph::StackGraph, node: &NodeHandle) -> (r: bool)
        requires
            graph.wf(),
            node.index < graph.nodes@.len(),
        ensures
            r == self.spec_include_node(graph, *node),
    ;

    /// Whether the given edge should be included.
    fn include_edge(
        &self,
        graph: &crate::graph::StackGraph,
        source: &NodeHandle,
        sink: &NodeHandle,
    ) -> (r: bool)
        requires
            graph.wf(),
            source.index < graph.nodes@.len(),
            sink.index < graph.nodes@.len(),
        ensures
            r == self.spec_include_edge(graph, *source, *sink),
    ;

    /// Whether the given partial path should be included.
    fn include_partial_path(&self, graph: &crate::graph::StackGraph, path: &PartialPath) -> (r:
        bool)
        requires
            graph.wf(),
            crate::partial::spec_path_wf(*graph, path@),
        ensures
            r == self.spec_include_partial_path(graph, path),
    ;
}

/// A filter that includes everything.
pub struct NoFilter;

impl Filter for NoFilter {
    open spec fn spec_include_file(&self, g: &crate::graph::StackGraph, file: FileHandle) -> bool {
        true
    }

    open spec fn spec_include_node(&self, g: &crate::graph::StackGraph, node: NodeHandle) -> bool {
        true
    }

    open spec fn spec_include_edge(
        &self,
        g: &crate::graph::StackGraph,
        source: NodeHandle,
        sink: NodeHandle,
    ) -> bool {
        true
    }

    open spec fn spec_include_partial_path(
        &self,
        g: &crate::graph::StackGraph,
        path: &PartialPath,
    ) -> bool {
        true
    }

    fn include_file(&self, graph: &crate::graph::StackGraph, file: &FileHandle) -> (r: bool) {
        true
    }

    fn include_node(&self, graph: &crate::graph::StackGraph, node: &NodeHandle) -> (r: bool) {
        true
    }

    fn include_edge(
        &self,
        graph: &crate::graph::StackGraph,
        source: &NodeHandle,
        sink: &NodeHandle,
    ) -> (r: bool) {
        true
    }

    fn include_partial_path(&self, graph: &crate::graph::StackGraph, path: &PartialPath) -> (r:
        bool) {
        true
    }
}

/// A filter that includes a single file and everything in it.
pub struct FileFilter(pub FileHandle);

impl Filter for FileFilter {
    open spec fn spec_include_file(&self, g: &crate::graph::StackGraph, file: FileHandle) -> bool {
        file == self.0
    }

    open spec fn spec_include_node(&self, g: &crate::graph::StackGraph, node: NodeHandle) -> bool {
        true
    }

    open spec fn spec_include_edge(
        &self,
        g: &crate::graph::StackGraph,
        source: NodeHandle,
        sink: NodeHandle,
    ) -> bool {
        true
    }

    open spec fn spec_include_partial_path(
        &self,
        g: &crate::graph::StackGraph,
        path: &PartialPath,
    ) -> bool {
        true
    }

    fn include_file(&self, graph: &crate::graph::StackGraph, file: &FileHandle) -> (r: bool) {
        *file == self.0
    }

    fn include_node(&self, graph: &crate::graph::StackGraph, node: &NodeHandle) -> (r: bool) {
        true
    }

    fn include_edge(
        &self,
        graph: &crate::graph::StackGraph,
        source: &NodeHandle,
        sink: &NodeHandle,
    ) -> (r: bool) {
        true
    }

    fn include_partial_path(&self, graph: &crate::graph::StackGraph, path: &PartialPath) -> (r:
        bool) {
        true
    }
}

/// Wraps a filter and enforces the exclusion hierarchy: a node of an
/// excluded file is excluded, an edge touching an excluded node is
/// excluded, and a partial path using an excluded edge is excluded.
pub struct ImplicationFilter<'a, F: Filter>(pub &'a F);

impl<'a, F: Filter> Filter for ImplicationFilter<'a, F> {
    open spec fn spec_include_file(&self, g: &crate::graph::StackGraph, file: FileHandle) -> bool {
        self.0.spec_include_file(g, file)
    }

    open spec fn spec_include_node(&self, g: &crate::graph::StackGraph, node: NodeHandle) -> bool {
        &&& match g.nodes@[node.index as int].id.file {
            Some(f) => self.0.spec_include_file(g, f),
            None => true,
        }
        &&& self.0.spec_include_node(g, node)
    }

    open spec fn spec_include_edge(
        &self,
        g: &crate::graph::StackGraph,
        source: NodeHandle,
        sink: NodeHandle,
    ) -> bool {
        &&& self.spec_include_node(g, source)
        &&& self.spec_include_node(g, sink)
        &&& self.0.spec_include_edge(g, source, sink)
    }

    open spec fn spec_include_partial_path(
        &self,
        g: &crate::graph::StackGraph,
        path: &PartialPath,
    ) -> bool {
        &&& self.0.spec_include_partial_path(g, path)
        &&& forall|i: int|
            0 <= i < path@.edges.len() ==> self.spec_include_edge(
                g,
                (#[trigger] path@.edges[i]).source,
                path@.edges[i].sink,
            )
    }

    fn include_file(&self, graph: &crate::graph::StackGraph, file: &FileHandle) -> (r: bool) {
        self.0.include_file(graph, file)
    }

    fn include_node(&self, graph: &crate::graph::StackGraph, node: &NodeHandle) -> (r: bool) {
        let file_ok: bool = match graph.nodes[node.index].id.file {
            Some(f) => self.0.include_file(graph, &f),
            None => true,
        };
        file_ok && self.0.include_node(graph, node)
    }

    fn include_edge(
        &self,
        graph: &crate::graph::StackGraph,
        source: &NodeHandle,
        sink: &NodeHandle,
    ) -> (r: bool) {
        self.include_node(graph, source) && self.include_node(graph, sink)
            && self.0.include_edge(graph, source, sink)
    }

    fn include_partial_path(&self, graph: &crate::graph::StackGraph, path: &PartialPath) -> (r:
        bool) {
        if !self.0.include_partial_path(graph, path) {
            return false;
        }
        let n = path.edges.len();
        for i in 0..n
            invariant
                graph.wf(),
                crate::partial::spec_path_wf(*graph, path@),
                n == path@.edges.len(),
                forall|j: int|
                    0 <= j < i ==> self.spec_include_edge(
                        graph,
                        (#[trigger] path@.edges[j]).source,
                        path@.edges[j].sink,
                    ),
        {
            let e = path.edges[i];
            if !self.include_edge(graph, &e.source, &e.sink) {
                proof {
                    assert(!self.spec_include_edge(
                        graph,
                        (#[trigger] path@.edges[i as int]).source,
                        path@.edges[i as int].sink,
                    ));
                }
                return false;
            }
        }
        true
    }
}

/// Loading serialised graph data failed: the data does not describe a
/// well-formed stack graph.
#[derive(Clone, Copy, Debug, PartialEq, Eq, Structural)]
pub enum LoadError {
    Malformed,
}

/// The serialisable form of a stack graph: the interned strings, the
/// nodes with their identities and kinds, the per-node outgoing edges,
/// and the per-node source information, all as plain data.
pub struct StackGraph {
    pub symbols: Vec<String>,
    pub files: Vec<String>,
    pub nodes: Vec<Node>,
    pub outgoing: Vec<Vec<Edge>>,
    pub source_info: Vec<Option<SourceInfo>>,
}

/// The data and the graph hold the same files, symbols, nodes, edges and
/// source spans.
pub open spec fn spec_mirrors(d: &StackGraph, g: &crate::graph::StackGraph) -> bool {
    &&& d.symbols@ == g.symbols@
    &&& d.files@ == g.files@
    &&& d.nodes@ == g.nodes@
    &&& d.outgoing@.len() == g.outgoing@.len()
    &&& forall|i: int|
        0 <= i < d.outgoing@.len() ==> (#[trigger] d.outgoing@[i])@ == g.outgoing@[i]@
    &&& d.source_info@ == g.source_info@
}

fn clone_strings(v: &Vec<String>) -> (r: Vec<String>)
    ensures
        r@ == v@,
{
    let mut r: Vec<String> = Vec::new();
    let n = v.len();
    for i in 0..n
        invariant
            n == v@.len(),
            r@ == v@.take(i as int),
    {
        r.push(v[i].clone());
        proof {
            assert(v@.take(i + 1) =~= v@.take(i as int).push(v@[i as int]));
        }
    }
    proof {
        assert(v@.take(n as int) =~= v@);
    }
    r
}

fn clone_nodes(v: &Vec<Node>) -> (r: Vec<Node>)
    ensures
        r@ == v@,
{
    let mut r: Vec<Node> = Vec::new();
    let n = v.len();
    for i in 0..n
        invariant
            n == v@.len(),
            r@ == v@.take(i as int),
    {
        r.push(v[i]);
        proof {
            assert(v@.take(i + 1) =~= v@.take(i as int).push(v@[i as int]));
        }
    }
    proof {
        assert(v@.take(n as int) =~= v@);
    }
    r
}

fn clone_edge_row(v: &Vec<Edge>) -> (r: Vec<Edge>)
    ensures
        r@ == v@,
{
    let mut r: Vec<Edge> = Vec::new();
    let n = v.len();
    for i in 0..n
        invariant
            n == v@.len(),
            r@ == v@.take(i as int),
    {
        r.push(v[i]);
        proof {
            assert(v@.take(i + 1) =~= v@.take(i as int).push(v@[i as int]));
        }
    }
    proof {
        assert(v@.take(n as int) =~= v@);
    }
    r
}

fn clone_outgoing(v: &Vec<Vec<Edge>>) -> (r: Vec<Vec<Edge>>)
    ensures
        r@.len() == v@.len(),
        forall|i: int| 0 <= i < v@.len() ==> (#[trigger] r@[i])@ == v@[i]@,
{
    let mut r: Vec<Vec<Edge>> = Vec::new();
    let n = v.len();
    for i in 0..n
        invariant
            n == v@.len(),
            r@.len() == i,
            forall|j: int| 0 <= j < i ==> (#[trigger] r@[j])@ == v@[j]@,
    {
        r.push(clone_edge_row(&v[i]));
    }
    r
}

fn clone_source_info(v: &Vec<Option<SourceInfo>>) -> (r: Vec<Option<SourceInfo>>)
    ensures
        r@ == v@,
{
    let mut r: Vec<Option<SourceInfo>> = Vec::new();
    let n = v.len();
    for i in 0..n
        invariant
            n == v@.len(),
            r@ == v@.take(i as int),
    {
        let e: Option<SourceInfo> = match &v[i] {
            Some(si) => Some(*si),
            None => None,
        };
        r.push(e);
        proof {
            assert(v@.take(i + 1) =~= v@.take(i as int).push(v@[i as int]));
        }
    }
    proof {
        assert(v@.take(n as int) =~= v@);
    }
    r
}

impl StackGraph {
    /// Extracts the serialisable data of a graph: an exact mirror of its
    /// files, symbols, nodes, edges and source spans.
    pub fn from_graph(graph: &crate::graph::StackGraph) -> (r: StackGraph)
        requires
            graph.wf(),
        ensures
            spec_mirrors(&r, graph),
    {
        let r = StackGraph {
            symbols: clone_strings(&graph.symbols),
            files: clone_strings(&graph.files),
            nodes: clone_nodes(&graph.nodes),
            outgoing: clone_outgoing(&graph.outgoing),
            source_info: clone_source_info(&graph.source_info),
        };

        r
    }

    /// Validates the data and reconstructs the graph it mirrors. Fails
    /// exactly when the data does not describe a well-formed graph, so a
    /// load after [`StackGraph::from_graph`] always succeeds and yields
    /// the original graph back.
    pub fn load(&self) -> (r: Result<crate::graph::StackGraph, LoadError>)
        ensures
            r is Ok ==> r->Ok_0.wf() && spec_mirrors(self, &r->Ok_0),
            forall|g: crate::graph::StackGraph| g.wf() && spec_mirrors(self, &g) ==> r is Ok,
    {
        let candidate = crate::graph::StackGraph {
            symbols: clone_strings(&self.symbols),
            files: clone_strings(&self.files),
            nodes: clone_nodes(&self.nodes),
            outgoing: clone_outgoing(&self.outgoing),
            source_info: clone_source_info(&self.source_info),
        };

        if check_graph_wf(&candidate) {
            Ok(candidate)
        } else {
            proof {
                assert forall|g: crate::graph::StackGraph|
                    !(g.wf() && spec_mirrors(self, &g)) by {
                    if g.wf() && spec_mirrors(self, &g) {
                        lemma_wf_from_mirror(self, &g, &candidate);
                    }
                }
            }
            Err(LoadError::Malformed)
        }
    }
}

/// Two graphs that mirror the same data are equally well-formed: the
/// well-formedness conditions depend only on the mirrored fields.
proof fn lemma_wf_from_mirror(
    d: &StackGraph,
    g: &crate::graph::StackGraph,
    h: &crate::graph::StackGraph,
)
    requires
        g.wf(),
        spec_mirrors(d, g),
        spec_mirrors(d, h),
    ensures
        h.wf(),
{
    assert forall|i: int| 0 <= i < h.nodes@.len() implies h.node_wf(#[trigger] h.nodes@[i]) by {
        assert(g.node_wf(g.nodes@[i]));
        assert(h.nodes@[i] == g.nodes@[i]);
    }
    assert forall|i: int, j: int|
        0 <= i < h.outgoing@.len() && 0 <= j < h.outgoing@[i].len() implies {
        &&& h.edge_wf(#[trigger] h.outgoing@[i]@[j])
        &&& h.outgoing@[i]@[j].source == (NodeHandle { index: i as usize })
    } by {
        assert(h.outgoing@[i]@ == d.outgoing@[i]@);
        assert(d.outgoing@[i]@ == g.outgoing@[i]@);
        assert(g.edge_wf(g.outgoing@[i]@[j]));
    }
    assert forall|i: int, j: int, k: int|
        0 <= i < h.outgoing@.len() && 0 <= j < k < h.outgoing@[i].len() implies (
    #[trigger] h.outgoing@[i]@[j]).sink != (#[trigger] h.outgoing@[i]@[k]).sink by {
        assert(h.outgoing@[i]@ == d.outgoing@[i]@);
        assert(d.outgoing@[i]@ == g.outgoing@[i]@);
        assert(g.outgoing@[i]@[j].sink != g.outgoing@[i]@[k].sink);
    }
}

/// The serialisable form of a partial-path database: the stored paths in
/// handle order, as plain data.
pub struct Database {
    pub paths: Vec<PartialPath>,
}

/// The data and the database hold the same partial paths, in the same
/// handle order.
pub open spec fn spec_mirrors_database(d: &Database, db: &crate::stitching::Database) -> bool {
    &&& d.paths@.len() == db.paths@.len()
    &&& forall|i: int| 0 <= i < d.paths@.len() ==> (#[trigger] d.paths@[i])@ == db.paths@[i]@
}

impl Database {
    /// Extracts the serialisable data of a partial-path database: an
    /// exact mirror of its stored paths.
    pub fn from_database(db: &crate::stitching::Database) -> (r: Database)
        ensures
            spec_mirrors_database(&r, db),
    {
        let mut paths: Vec<PartialPath> = Vec::new();
        let n = db.paths.len();
        for i in 0..n
            invariant
                n == db.paths@.len(),
                paths@.len() == i,
                forall|j: int| 0 <= j < i ==> (#[trigger] paths@[j])@ == db.paths@[j]@,
        {
            paths.push(db.paths[i].clone());
        }
        Database { paths }
    }

    /// Validates the data against a graph and reconstructs the database
    /// it mirrors. Fails exactly when some stored path is not well-formed
    /// with respect to the graph, so a load after
    /// [`Database::from_database`] of a database that was well-formed for
    /// the same graph always succeeds.
    pub fn load(&self, graph: &crate::graph::StackGraph) -> (r: Result<
        crate::stitching::Database,
        LoadError,
    >)
        requires
            graph.wf(),
        ensures
            r is Ok ==> r->Ok_0.wf(*graph) && spec_mirrors_database(self, &r->Ok_0),
            (forall|i: int|
                0 <= i < self.paths@.len() ==> crate::partial::spec_path_wf(
                    *graph,
                    (#[trigger] self.paths@[i])@,
                )) ==> r is Ok,
    {
        let mut paths: Vec<PartialPath> = Vec::new();
        let n = self.paths.len();
        for i in 0..n
            invariant
                graph.wf(),
                n == self.paths@.len(),
                paths@.len() == i,
                forall|j: int| 0 <= j < i ==> (#[trigger] paths@[j])@ == self.paths@[j]@,
                forall|j: int|
                    0 <= j < i ==> crate::partial::spec_path_wf(
                        *graph,
                        (#[trigger] paths@[j])@,
                    ),
        {
            if !check_path_wf(graph, &self.paths[i]) {
                return Err(LoadError::Malformed);
            }
            paths.push(self.paths[i].clone());
        }
        Ok(crate::stitching::Database { paths })
    }
}

/// Checks the well-formedness of a partial path against a graph.
fn check_path_wf(graph: &crate::graph::StackGraph, p: &PartialPath) -> (r: bool)
    requires
        graph.wf(),
    ensures
        r == crate::partial::spec_path_wf(*graph, p@),
{
    let nn = graph.nodes.len();
    if p.start_node.index >= nn || p.end_node.index >= nn {
        return false;
    }
    // the variable discipline: a postcondition variable heads the
    // matching precondition
    let sym_vars_ok: bool = match (p.symbol_stack_postcondition.variable,
        p.symbol_stack_precondition.variable) {
        (Some(v), Some(u)) => v == u,
        (Some(_), None) => false,
        (None, _) => true,
    };
    let scope_vars_ok: bool = match (p.scope_stack_postcondition.variable,
        p.scope_stack_precondition.variable) {
        (Some(v), Some(u)) => v == u,
        (Some(_), None) => false,
        (None, _) => true,
    };
    if !sym_vars_ok || !scope_vars_ok {
        proof {
            assert(!crate::partial::spec_variables_wf(p@));
        }
        return false;
    }
    // the edge list is connected from the start node to the end node
    let ne = p.edges.len();
    if ne == 0 {
        if p.start_node != p.end_node {
            return false;
        }
    } else {
        if p.edges[0].source != p.start_node {
            return false;
        }
        if p.edges[ne - 1].sink != p.end_node {
            return false;
        }
    }
    for i in 0..ne
        invariant
            graph.wf(),
            nn == graph.nodes@.len(),
            ne == p@.edges.len(),
            forall|j: int|
                0 <= j < i ==> (#[trigger] p@.edges[j]).source.index < graph.nodes@.len()
                    && p@.edges[j].sink.index < graph.nodes@.len(),
            forall|j: int|
                0 <= j < i && j < ne - 1 ==> (#[trigger] p@.edges[j]).sink == p@.edges[j
                    + 1].source,
    {
        if p.edges[i].source.index >= nn || p.edges[i].sink.index >= nn {
            return false;
        }
        if i + 1 < ne && p.edges[i].sink != p.edges[i + 1].source {
            proof {
                assert((#[trigger] p@.edges[i as int]).sink != p@.edges[i + 1].source);
            }
            return false;
        }
    }
    // every scope handle on the stacks resolves
    let ns = p.scope_stack_precondition.scopes.len();
    for i in 0..ns
        invariant
            nn == graph.nodes@.len(),
            ns == p@.scope_pre.scopes.len(),
            forall|j: int|
                0 <= j < i ==> (#[trigger] p@.scope_pre.scopes[j]).index < graph.nodes@.len(),
    {
        if p.scope_stack_precondition.scopes[i].index >= nn {
            return false;
        }
    }
    let ns = p.scope_stack_postcondition.scopes.len();
    for i in 0..ns
        invariant
            nn == graph.nodes@.len(),
            ns == p@.scope_post.scopes.len(),
            forall|j: int|
                0 <= j < i ==> (#[trigger] p@.scope_post.scopes[j]).index < graph.nodes@.len(),
    {
        if p.scope_stack_postcondition.scopes[i].index >= nn {
            return false;
        }
    }
    if !check_attached_scopes(graph, &p.symbol_stack_precondition.symbols) {
        proof {
            assert(!crate::partial::spec_sym_stack_bounded(*graph, p@.sym_pre));
        }
        return false;
    }
    if !check_attached_scopes(graph, &p.symbol_stack_postcondition.symbols) {
        proof {
            assert(!crate::partial::spec_sym_stack_bounded(*graph, p@.sym_post));
        }
        return false;
    }
    proof {
        assert(crate::partial::spec_edges_wf(*graph, p@));
        assert(crate::partial::spec_scopes_wf(*graph, p@));
    }
    true
}

/// Checks that every attached scope list of a symbol-stack vector holds
/// only scope handles that resolve.
fn check_attached_scopes(
    graph: &crate::graph::StackGraph,
    symbols: &Vec<crate::partial::PartialScopedSymbol>,
) -> (r: bool)
    ensures
        r == crate::partial::spec_sym_stack_bounded(
            *graph,
            crate::partial::SymbolStackView {
                symbols: symbols@.map_values(|s: crate::partial::PartialScopedSymbol| s@),
                variable: None,
            },
        ),
{
    let ghost view = crate::partial::SymbolStackView {
        symbols: symbols@.map_values(|s: crate::partial::PartialScopedSymbol| s@),
        variable: None,
    };
    let nn = graph.nodes.len();
    let n = symbols.len();
    for i in 0..n
        invariant
            nn == graph.nodes@.len(),
            n == symbols@.len(),
            view == (crate::partial::SymbolStackView {
                symbols: symbols@.map_values(|s: crate::partial::PartialScopedSymbol| s@),
                variable: None,
            }),
            forall|j: int, k: int|
                0 <= j < i && (#[trigger] view.symbols[j]).scopes is Some && 0 <= k
                    < view.symbols[j].scopes->Some_0.len() ==> (#[trigger] view.symbols[
                    j
                ].scopes->Some_0[k]).index < graph.nodes@.len(),
    {
        match &symbols[i].scopes {
            Some(list) => {
                let m = list.len();
                for k in 0..m
                    invariant
                        nn == graph.nodes@.len(),
                        n == symbols@.len(),
                        i < n,
                        view == (crate::partial::SymbolStackView {
                            symbols: symbols@.map_values(
                                |s: crate::partial::PartialScopedSymbol| s@,
                            ),
                            variable: None,
                        }),
                        symbols@[i as int].scopes == Some(*list),
                        m == list@.len(),
                        forall|x: int| 0 <= x < k ==> (#[trigger] list@[x]).index
                            < graph.nodes@.len(),
                {
                    if list[k].index >= nn {
                        proof {
                            assert(view.symbols[i as int] == symbols@[i as int]@);
                            assert((#[trigger] view.symbols[i as int]).scopes->Some_0[k as int]
                                == list@[k as int]);
                            assert(!crate::partial::spec_sym_stack_bounded(*graph, view));
                        }
                        return false;
                    }
                }
            },
            None => {},
        }
        proof {
            assert forall|k: int|
                (#[trigger] view.symbols[i as int]).scopes is Some && 0 <= k < view.symbols[
                    i as int
                ].scopes->Some_0.len() implies (#[trigger] view.symbols[i as int].scopes->Some_0[
                k
            ]).index < graph.nodes@.len() by {
                match symbols@[i as int].scopes {
                    Some(list) => {
                        assert(view.symbols[i as int].scopes->Some_0[k] == list@[k]);
                    },
                    None => {},
                }
            }
        }
    }
    true
}

/// Serialising then loading preserves the graph: two graphs that mirror
/// the same serialised data agree on their interned symbols and files,
/// their nodes — and therefore on the nodes of every file — their edges
/// with precedences, and their source spans.
pub proof fn lemma_round_trip_preserves(
    d: &StackGraph,
    g: &crate::graph::StackGraph,
    h: &crate::graph::StackGraph,
)
    requires
        spec_mirrors(d, g),
        spec_mirrors(d, h),
    ensures
        h.symbols@ == g.symbols@,
        h.files@ == g.files@,
        h.nodes@ == g.nodes@,
        h.source_info@ == g.source_info@,
        h.outgoing@.len() == g.outgoing@.len(),
        forall|i: int|
            0 <= i < g.outgoing@.len() ==> (#[trigger] h.outgoing@[i])@ == g.outgoing@[i]@,
        forall|f: FileHandle| h.spec_nodes_for_file(f) == g.spec_nodes_for_file(f),
{
    assert forall|i: int|
        0 <= i < g.outgoing@.len() implies (#[trigger] h.outgoing@[i])@ == g.outgoing@[i]@ by {
        assert(h.outgoing@[i]@ == d.outgoing@[i]@);
    }
    assert forall|f: FileHandle| h.spec_nodes_for_file(f) == g.spec_nodes_for_file(f) by {
        lemma_nodes_for_file_congruent(g, h, f, g.nodes@.len() as int);
    }
}

/// Graphs with equal node sequences list the same nodes for every file.
proof fn lemma_nodes_for_file_congruent(
    g: &crate::graph::StackGraph,
    h: &crate::graph::StackGraph,
    f: FileHandle,
    n: int,
)
    requires
        g.nodes@ == h.nodes@,
    ensures
        g.spec_nodes_for_file_up_to(f, n) == h.spec_nodes_for_file_up_to(f, n),
    decreases n,
{
    if n > 0 {
        lemma_nodes_for_file_congruent(g, h, f, n - 1);
    }
}

/// Checks the graph well-formedness conditions on a candidate value.
fn check_graph_wf(g: &crate::graph::StackGraph) -> (r: bool)
    ensures
        r == g.wf(),
{
    let nn = g.nodes.len();
    if g.outgoing.len() != nn || g.source_info.len() != nn || nn < 2 {
        return false;
    }
    let root_ok: bool = match g.nodes[0].kind {
        NodeKind::Root => g.nodes[0].id.equals(&NodeID { file: None, local_id: 1 }),
        _ => false,
    };
    if !root_ok {
        return false;
    }
    let jump_ok: bool = match g.nodes[1].kind {
        NodeKind::JumpToScope => g.nodes[1].id.equals(&NodeID { file: None, local_id: 2 }),
        _ => false,
    };
    if !jump_ok {
        return false;
    }
    // every node's handles resolve
    for i in 0..nn
        invariant
            nn == g.nodes@.len(),
            forall|j: int| 0 <= j < i ==> g.node_wf(#[trigger] g.nodes@[j]),
    {
        let node = g.nodes[i];
        let ok: bool = match node.id.file {
            Some(f) => f.index < g.files.len(),
            None => true,
        } && match node.kind {
            NodeKind::PushSymbol { symbol, .. } => symbol.index < g.symbols.len(),
            NodeKind::PushScopedSymbol { symbol, scope, .. } => symbol.index < g.symbols.len()
                && scope.index < g.nodes.len(),
            NodeKind::PopSymbol { symbol, .. } => symbol.index < g.symbols.len(),
            NodeKind::PopScopedSymbol { symbol, .. } => symbol.index < g.symbols.len(),
            _ => true,
        };
        if !ok {
            proof {
                assert(!g.node_wf(g.nodes@[i as int]));
            }
            return false;
        }
    }
    // every edge resolves, leaves its own node, and sinks are unique
    for i in 0..nn
        invariant
            nn == g.nodes@.len(),
            nn == g.outgoing@.len(),
            forall|a: int, b: int|
                0 <= a < i && 0 <= b < g.outgoing@[a].len() ==> {
                    &&& g.edge_wf(#[trigger] g.outgoing@[a]@[b])
                    &&& g.outgoing@[a]@[b].source == (NodeHandle { index: a as usize })
                },
            forall|a: int, b: int, c: int|
                0 <= a < i && 0 <= b < c < g.outgoing@[a].len() ==> (
                #[trigger] g.outgoing@[a]@[b]).sink != (#[trigger] g.outgoing@[a]@[c]).sink,
    {
        let row_len = g.outgoing[i].len();
        for j in 0..row_len
            invariant
                nn == g.nodes@.len(),
                nn == g.outgoing@.len(),
                i < nn,
                row_len == g.outgoing@[i as int]@.len(),
                forall|b: int|
                    0 <= b < j ==> {
                        &&& g.edge_wf(#[trigger] g.outgoing@[i as int]@[b])
                        &&& g.outgoing@[i as int]@[b].source == (NodeHandle { index: i })
                    },
                forall|b: int, c: int|
                    0 <= b < c < j ==> (#[trigger] g.outgoing@[i as int]@[b]).sink != (
                    #[trigger] g.outgoing@[i as int]@[c]).sink,
        {
            let e = g.outgoing[i][j];
            if e.source.index >= nn || e.sink.index >= nn || e.source.index != i {
                proof {
                    if e.source.index >= nn || e.sink.index >= nn {
                        assert(!g.edge_wf(g.outgoing@[i as int]@[j as int]));
                    } else {
                        assert(g.outgoing@[i as int]@[j as int].source != (NodeHandle {
                            index: i,
                        }));
                    }
                }
                return false;
            }
            for b in 0..j
                invariant
                    nn == g.outgoing@.len(),
                    i < nn,
                    j < row_len,
                    row_len == g.outgoing@[i as int]@.len(),
                    e == g.outgoing@[i as int]@[j as int],
                    forall|x: int|
                        0 <= x < b ==> (#[trigger] g.outgoing@[i as int]@[x]).sink != e.sink,
            {
                if g.outgoing[i][b].sink == e.sink {
                    proof {
                        assert(g.outgoing@[i as int]@[b as int].sink == g.outgoing@[i as int]@[
                            j as int
                        ].sink);
                    }
                    return false;
                }
            }
        }
    }
    // node identities are unique
    for i in 0..nn
        invariant
            nn == g.nodes@.len(),
            forall|a: int, b: int|
                0 <= a < b < g.nodes@.len() && a < i ==> (#[trigger] g.nodes@[a]).id != (
                #[trigger] g.nodes@[b]).id,
    {
        let mut j = i + 1;
        while j < nn
            invariant
                nn == g.nodes@.len(),
                i < j,
                i < nn,
                j <= nn,
                forall|b: int|
                    i < b < j ==> (#[trigger] g.nodes@[b]).id != g.nodes@[i as int].id,
            decreases nn - j,
        {
            if g.nodes[i].id.equals(&g.nodes[j].id) {
                return false;
            }
            j += 1;
        }
    }
    // interned strings are distinct
    let sn = g.symbols.len();
    for i in 0..sn
        invariant
            sn == g.symbols@.len(),
            forall|a: int, b: int|
                0 <= a < b < g.symbols@.len() && a < i ==> (#[trigger] g.symbols@[a])@ != (
                #[trigger] g.symbols@[b])@,
    {
        let mut j = i + 1;
        while j < sn
            invariant
                sn == g.symbols@.len(),
                i < j,
                i < sn,
                j <= sn,
                forall|b: int| i < b < j ==> (#[trigger] g.symbols@[b])@ != g.symbols@[i as int]@,
            decreases sn - j,
        {
            if g.symbols[i] == g.symbols[j] {
                return false;
            }
            j += 1;
        }
    }
    let fnn = g.files.len();
    for i in 0..fnn
        invariant
            fnn == g.files@.len(),
            forall|a: int, b: int|
                0 <= a < b < g.files@.len() && a < i ==> (#[trigger] g.files@[a])@ != (
                #[trigger] g.files@[b])@,
    {
        let mut j = i + 1;
        while j < fnn
            invariant
                fnn == g.files@.len(),
                i < j,
                i < fnn,
                j <= fnn,
                forall|b: int| i < b < j ==> (#[trigger] g.files@[b])@ != g.files@[i as int]@,
            decreases fnn - j,
        {
            if g.files[i] == g.files[j] {
                return false;
            }
            j += 1;
        }
    }
    true
}

} // verus!
