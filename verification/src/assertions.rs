//! Assertions about name resolution: declare that a reference at a source
//! position resolves to given definitions, or that a position defines or
//! refers to given symbols, and check the claim against a stack graph.
//!
//! Assertion failures are ordinary results, surfaced to the caller with
//! the missing and unexpected items; they never abort a batch of
//! assertions.

use vstd::prelude::*;

use crate::graph::FileHandle;
use crate::graph::NodeHandle;
use crate::graph::Position;
use crate::graph::StackGraph;
use crate::graph::SymbolHandle;
use crate::partial::spec_path_wf;
use crate::partial::spec_shadows;
use crate::partial::PartialPath;
use crate::stitching::spec_output_wf;
use crate::stitching::Database;
use crate::stitching::ForwardPartialPathStitcher;
use crate::stitching::StitcherConfig;
use crate::CancellationError;
use crate::CancellationFlag;

verus! {

/// The source position of an assertion: a location in a file, typically
/// taken from an annotated line of a test file.
#[derive(Clone, Copy, Debug)]
pub struct AssertionSource {
    pub file: FileHandle,
    pub position: Position,
}

impl AssertionSource {
    /// The handles, in ascending order, of the first `n` nodes that are
    /// definitions of this source's file whose span contains the
    /// position.
    pub open spec fn spec_definitions_up_to(&self, g: StackGraph, n: int) -> Seq<NodeHandle>
        decreases n,
    {
        if n <= 0 {
            Seq::empty()
        } else {
            let rest = self.spec_definitions_up_to(g, n - 1);
            let h = NodeHandle { index: (n - 1) as usize };
            if g.nodes@[n - 1].id.file == Some(self.file) && g.spec_is_definition_at(
                h,
                self.position,
            ) {
                rest.push(h)
            } else {
                rest
            }
        }
    }

    pub open spec fn spec_definitions(&self, g: StackGraph) -> Seq<NodeHandle> {
        self.spec_definitions_up_to(g, g.nodes@.len() as int)
    }

    /// The handles, in ascending order, of the first `n` nodes that are
    /// references of this source's file whose span contains the position.
    pub open spec fn spec_references_up_to(&self, g: StackGraph, n: int) -> Seq<NodeHandle>
        decreases n,
    {
        if n <= 0 {
            Seq::empty()
        } else {
            let rest = self.spec_references_up_to(g, n - 1);
            let h = NodeHandle { index: (n - 1) as usize };
            if g.nodes@[n - 1].id.file == Some(self.file) && g.spec_is_reference_at(
                h,
                self.position,
            ) {
                rest.push(h)
            } else {
                rest
            }
        }
    }

    pub open spec fn spec_references(&self, g: StackGraph) -> Seq<NodeHandle> {
        self.spec_references_up_to(g, g.nodes@.len() as int)
    }

    /// All definition nodes of the file whose source span contains this
    /// position, in ascending handle order.
    pub fn iter_definitions(&self, graph: &StackGraph) -> (r: Vec<NodeHandle>)
        requires
            graph.wf(),
        ensures
            r@ == self.spec_definitions(*graph),
    {
        let mut r: Vec<NodeHandle> = Vec::new();
        let n = graph.nodes.len();
        for i in 0..n
            invariant
                graph.wf(),
                n == graph.nodes@.len(),
                r@ == self.spec_definitions_up_to(*graph, i as int),
        {
            let h = NodeHandle { index: i };
            let in_file: bool = match graph.node(h).id.file {
                Some(f) => f == self.file,
                None => false,
            };
            if in_file && graph.node(h).is_definition() {
                let covers: bool = match graph.source_info(h) {
                    Some(si) => si.span.contains(&self.position),
                    None => false,
                };
                if covers {
                    r.push(h);
                }
            }
        }
        r
    }

    /// All reference nodes of the file whose source span contains this
    /// position, in ascending handle order.
    pub fn iter_references(&self, graph: &StackGraph) -> (r: Vec<NodeHandle>)
        requires
            graph.wf(),
        ensures
            r@ == self.spec_references(*graph),
    {
        let mut r: Vec<NodeHandle> = Vec::new();
        let n = graph.nodes.len();
        for i in 0..n
            invariant
                graph.wf(),
                n == graph.nodes@.len(),
                r@ == self.spec_references_up_to(*graph, i as int),
        {
            let h = NodeHandle { index: i };
            let in_file: bool = match graph.node(h).id.file {
                Some(f) => f == self.file,
                None => false,
            };
            if in_file && graph.node(h).is_reference() {
                let covers: bool = match graph.source_info(h) {
                    Some(si) => si.span.contains(&self.position),
                    None => false,
                };
                if covers {
                    r.push(h);
                }
            }
        }
        r
    }
}

/// The rendering of a source location as `name:line:column` with the
/// numbers in decimal: the result of the formatting depends on these
/// arguments alone.
pub uninterp spec fn location_label(name: Seq<char>, line: usize, column: usize) -> Seq<char>;

/// Renders a source location as `name:line:column`.
///
/// Relies on the `format!` macro of std to assemble the string and to
/// render the two numbers in decimal; the rendering is a function of the
/// arguments alone.
#[verifier::external_body]
fn format_location(name: &str, line: usize, column: usize) -> (r: String)
    ensures
        r@ == location_label(name@, line, column),
{
    format!("{}:{}:{}", name, line, column)
}

impl AssertionSource {
    /// A readable rendering of this position, as `filename:line:column`
    /// with 1-based line and column numbers.
    pub fn display_string(&self, graph: &StackGraph) -> (r: String)
        requires
            graph.wf(),
            self.file.index < graph.files@.len(),
            self.position.line < usize::MAX,
            self.position.column_grapheme < usize::MAX,
        ensures
            r@ == location_label(
                graph.files@[self.file.index as int]@,
                (self.position.line + 1) as usize,
                (self.position.column_grapheme + 1) as usize,
            ),
    {
        format_location(
            graph.file_name(self.file).as_str(),
            self.position.line + 1,
            self.position.column_grapheme + 1,
        )
    }
}

/// The target of a defined-assertion: the line a reference should resolve
/// to.
#[derive(Clone, Copy, Debug, PartialEq, Eq, Hash, Structural)]
pub struct AssertionTarget {
    pub file: FileHandle,
    /// The zero-based line that should fall within the definition's span.
    pub line: usize,
}

impl AssertionTarget {
    /// True when the node belongs to the target's file and the target's
    /// line falls within the node's source span.
    pub open spec fn spec_matches_node(&self, node: NodeHandle, g: StackGraph) -> bool {
        &&& g.nodes@[node.index as int].id.file == Some(self.file)
        &&& match g.source_info@[node.index as int] {
            Some(si) => si.span.start.line <= self.line && self.line <= si.span.end.line,
            None => false,
        }
    }

    /// Checks whether this target matches a node: same file, and the
    /// target line within the node's span. Callers pass nodes that carry
    /// source information and belong to a file.
    pub fn matches_node(&self, node: NodeHandle, graph: &StackGraph) -> (r: bool)
        requires
            graph.wf(),
            node.index < graph.nodes@.len(),
            graph.nodes@[node.index as int].id.file is Some,
            graph.source_info@[node.index as int] is Some,
        ensures
            r == self.spec_matches_node(node, *graph),
    {
        let file_matches: bool = match graph.node(node).file() {
            Some(f) => f == self.file,
            None => false,
        };
        let si = match graph.source_info(node) {
            Some(si) => *si,
            None => {
                return false;
            },
        };
        file_matches && si.span.start.line <= self.line && self.line <= si.span.end.line
    }
}

/// Why an assertion failed.
#[derive(Debug)]
pub enum AssertionError {
    /// No reference nodes were found at the assertion's source position,
    /// so a defined-assertion cannot be checked there.
    NoReferences { source: AssertionSource },
    /// Some expected targets were reached by no path, or some paths
    /// reached unexpected targets.
    IncorrectlyDefined {
        source: AssertionSource,
        references: Vec<NodeHandle>,
        missing_targets: Vec<AssertionTarget>,
        unexpected_paths: Vec<PartialPath>,
    },
    /// The position defines other symbols than expected.
    IncorrectDefinitions {
        source: AssertionSource,
        missing_symbols: Vec<SymbolHandle>,
        unexpected_symbols: Vec<SymbolHandle>,
    },
    /// The position refers to other symbols than expected.
    IncorrectReferences {
        source: AssertionSource,
        missing_symbols: Vec<SymbolHandle>,
        unexpected_symbols: Vec<SymbolHandle>,
    },
    /// The run was cancelled while path finding.
    Cancelled(CancellationError),
}

impl From<CancellationError> for AssertionError {
    fn from(value: CancellationError) -> (r: AssertionError) {
        AssertionError::Cancelled(value)
    }
}

impl vstd::std_specs::convert::FromSpecImpl<CancellationError> for AssertionError {
    open spec fn obeys_from_spec() -> bool {
        true
    }

    open spec fn from_spec(value: CancellationError) -> AssertionError {
        AssertionError::Cancelled(value)
    }
}

/// The symbols carried by the given nodes, in order.
pub open spec fn spec_symbols_of(g: StackGraph, nodes: Seq<NodeHandle>, n: int) -> Seq<
    SymbolHandle,
>
    decreases n,
{
    if n <= 0 {
        Seq::empty()
    } else {
        let rest = spec_symbols_of(g, nodes, n - 1);
        match g.nodes@[nodes[n - 1].index as int].spec_symbol() {
            Some(s) => rest.push(s),
            None => rest,
        }
    }
}

/// The first `n` elements of `from` that occur in neither `not_in` nor
/// earlier in the result: set difference with duplicates removed,
/// keeping first occurrences in order.
pub open spec fn spec_unique_absent(
    from: Seq<SymbolHandle>,
    not_in: Seq<SymbolHandle>,
    n: int,
) -> Seq<SymbolHandle>
    decreases n,
{
    if n <= 0 {
        Seq::empty()
    } else {
        let rest = spec_unique_absent(from, not_in, n - 1);
        let x = from[n - 1];
        if !not_in.contains(x) && !rest.contains(x) {
            rest.push(x)
        } else {
            rest
        }
    }
}

fn contains_symbol(v: &Vec<SymbolHandle>, s: SymbolHandle) -> (r: bool)
    ensures
        r == v@.contains(s),
{
    let n = v.len();
    for i in 0..n
        invariant
            n == v@.len(),
            forall|j: int| 0 <= j < i ==> v@[j] != s,
    {
        if v[i] == s {
            proof {
                assert(v@[i as int] == s);
            }
            return true;
        }
    }
    false
}

/// The elements of `from` that occur in neither `not_in` nor earlier in
/// the result; see [`spec_unique_absent`].
fn unique_absent(from: &Vec<SymbolHandle>, not_in: &Vec<SymbolHandle>) -> (r: Vec<SymbolHandle>)
    ensures
        r@ == spec_unique_absent(from@, not_in@, from@.len() as int),
{
    let mut r: Vec<SymbolHandle> = Vec::new();
    let n = from.len();
    for i in 0..n
        invariant
            n == from@.len(),
            r@ == spec_unique_absent(from@, not_in@, i as int),
    {
        let x = from[i];
        if !contains_symbol(not_in, x) && !contains_symbol(&r, x) {
            r.push(x);
        }
    }
    r
}

/// The symbols of the given nodes, in order; see [`spec_symbols_of`].
fn symbols_of(graph: &StackGraph, nodes: &Vec<NodeHandle>) -> (r: Vec<SymbolHandle>)
    requires
        graph.wf(),
        forall|i: int| 0 <= i < nodes@.len() ==> (#[trigger] nodes@[i]).index < graph.nodes@.len(),
    ensures
        r@ == spec_symbols_of(*graph, nodes@, nodes@.len() as int),
{
    let mut r: Vec<SymbolHandle> = Vec::new();
    let n = nodes.len();
    for i in 0..n
        invariant
            graph.wf(),
            n == nodes@.len(),
            forall|j: int|
                0 <= j < nodes@.len() ==> (#[trigger] nodes@[j]).index < graph.nodes@.len(),
            r@ == spec_symbols_of(*graph, nodes@, i as int),
    {
        match graph.node(nodes[i]).symbol() {
            Some(s) => r.push(s),
            None => {},
        }
    }
    r
}

/// The path's end node carries a file and source information and the
/// target matches it.
pub open spec fn spec_target_matches_view(
    g: StackGraph,
    t: AssertionTarget,
    v: crate::partial::PartialPathView,
) -> bool {
    &&& v.end_node.index < g.nodes@.len()
    &&& g.nodes@[v.end_node.index as int].id.file is Some
    &&& g.source_info@[v.end_node.index as int] is Some
    &&& t.spec_matches_node(v.end_node, g)
}

/// Some target of the list matches the path's end.
pub open spec fn spec_reaches_some_target(
    g: StackGraph,
    targets: Seq<AssertionTarget>,
    v: crate::partial::PartialPathView,
) -> bool {
    exists|k: int| 0 <= k < targets.len() && spec_target_matches_view(g, #[trigger] targets[k], v)
}

/// Some path of the batch reaches the target.
pub open spec fn spec_target_reached(
    g: StackGraph,
    t: AssertionTarget,
    actual: Seq<crate::partial::PartialPathView>,
) -> bool {
    exists|p: int| 0 <= p < actual.len() && spec_target_matches_view(g, t, #[trigger] actual[p])
}

/// Of the first `n` paths, those that no path of the whole batch shadows,
/// in order.
pub open spec fn spec_unshadowed_views(
    all: Seq<crate::partial::PartialPathView>,
    n: int,
) -> Seq<crate::partial::PartialPathView>
    decreases n,
{
    if n <= 0 {
        Seq::empty()
    } else {
        let rest = spec_unshadowed_views(all, n - 1);
        if forall|q: int| 0 <= q < all.len() ==> !spec_shadows(#[trigger] all[q], all[n - 1]) {
            rest.push(all[n - 1])
        } else {
            rest
        }
    }
}

/// Of the first `n` expected targets, those that no surviving path
/// reaches, first occurrences only.
pub open spec fn spec_missing_targets(
    g: StackGraph,
    targets: Seq<AssertionTarget>,
    actual: Seq<crate::partial::PartialPathView>,
    n: int,
) -> Seq<AssertionTarget>
    decreases n,
{
    if n <= 0 {
        Seq::empty()
    } else {
        let rest = spec_missing_targets(g, targets, actual, n - 1);
        let t = targets[n - 1];
        if !spec_target_reached(g, t, actual) && !rest.contains(t) {
            rest.push(t)
        } else {
            rest
        }
    }
}

/// Of the first `n` surviving paths, those whose end matches no expected
/// target, in order.
pub open spec fn spec_unexpected_views(
    g: StackGraph,
    targets: Seq<AssertionTarget>,
    actual: Seq<crate::partial::PartialPathView>,
    n: int,
) -> Seq<crate::partial::PartialPathView>
    decreases n,
{
    if n <= 0 {
        Seq::empty()
    } else {
        let rest = spec_unexpected_views(g, targets, actual, n - 1);
        if !spec_reaches_some_target(g, targets, actual[n - 1]) {
            rest.push(actual[n - 1])
        } else {
            rest
        }
    }
}

/// The batch is a possible output of stitching from the given seeds:
/// every path is well-formed, complete, and starts at a seed.
pub open spec fn spec_outputs_wf_views(
    g: StackGraph,
    starts: Seq<NodeHandle>,
    vs: Seq<crate::partial::PartialPathView>,
) -> bool {
    forall|i: int|
        0 <= i < vs.len() ==> {
            &&& spec_path_wf(g, #[trigger] vs[i])
            &&& crate::stitching::spec_is_complete(g, vs[i])
            &&& starts.contains(vs[i].start_node)
        }
}

/// What a defined-assertion decided for a collection of stitched paths:
/// the missing targets and unexpected paths computed from the unshadowed
/// survivors of the collection.
pub open spec fn spec_defined_verdict(
    g: StackGraph,
    source: AssertionSource,
    targets: Seq<AssertionTarget>,
    all: Seq<crate::partial::PartialPathView>,
    missing: Seq<AssertionTarget>,
    unexpected: Seq<PartialPath>,
) -> bool {
    let survivors = spec_unshadowed_views(all, all.len() as int);
    &&& spec_outputs_wf_views(g, source.spec_references(g), all)
    &&& missing == spec_missing_targets(g, targets, survivors, targets.len() as int)
    &&& unexpected.map_values(|p: PartialPath| p@) == spec_unexpected_views(
        g,
        targets,
        survivors,
        survivors.len() as int,
    )
}

/// The outcome of a defined-assertion. A `NoReferences` error comes
/// exactly when the position holds no references. Otherwise the verdict
/// is computed from paths that satisfy the stitcher's postconditions:
/// success when every expected target is reached by an unshadowed path
/// and every unshadowed path reaches an expected target, and otherwise
/// the error carrying exactly the missing targets and unexpected paths.
/// Cancellation can surface only from a flag that can cancel.
pub open spec fn spec_defined_post(
    g: StackGraph,
    source: AssertionSource,
    targets: Seq<AssertionTarget>,
    never_cancels: bool,
    always_cancels: bool,
    r: Result<(), AssertionError>,
) -> bool {
    &&& (r is Err && r->Err_0 is NoReferences <==> source.spec_references(g).len() == 0)
    &&& (always_cancels && (exists|k: int|
        0 <= k < source.spec_references(g).len() && crate::partial::spec_initial(
            g,
            #[trigger] source.spec_references(g)[k],
        ) is Ok) ==> r is Err && r->Err_0 is Cancelled)
    &&& (r is Err ==> (r->Err_0 is NoReferences || r->Err_0 is IncorrectlyDefined || r->Err_0
        is Cancelled))
    &&& (never_cancels ==> !(r is Err && r->Err_0 is Cancelled))
    &&& (r is Ok ==> exists|all: Seq<crate::partial::PartialPathView>|
        #[trigger] spec_defined_verdict(
            g,
            source,
            targets,
            all,
            Seq::<AssertionTarget>::empty(),
            Seq::<PartialPath>::empty(),
        ))
    &&& (r is Err ==> (r->Err_0 matches AssertionError::IncorrectlyDefined {
        source: s,
        references,
        missing_targets,
        unexpected_paths,
    } ==> {
        &&& s == source
        &&& references@ == source.spec_references(g)
        &&& (missing_targets@.len() > 0 || unexpected_paths@.len() > 0)
        &&& forall|i: int|
            0 <= i < unexpected_paths@.len() ==> {
                &&& spec_path_wf(g, (#[trigger] unexpected_paths@[i])@)
                &&& crate::stitching::spec_is_complete(g, unexpected_paths@[i]@)
                &&& source.spec_references(g).contains(unexpected_paths@[i]@.start_node)
            }
        &&& exists|all: Seq<crate::partial::PartialPathView>|
            #[trigger] spec_defined_verdict(
                g,
                source,
                targets,
                all,
                missing_targets@,
                unexpected_paths@,
            )
    }))
}

/// Keeps exactly the paths that no path of the batch shadows, computing
/// the set of non-shadowed paths in one pass over an unchanged input.
pub fn filter_unshadowed(paths: &Vec<PartialPath>) -> (r: Vec<PartialPath>)
    ensures
        r@.map_values(|p: PartialPath| p@) == spec_unshadowed_views(
            paths@.map_values(|p: PartialPath| p@),
            paths@.len() as int,
        ),
{
    let ghost all_v = paths@.map_values(|p: PartialPath| p@);
    let mut r: Vec<PartialPath> = Vec::new();
    let n = paths.len();
    for i in 0..n
        invariant
            n == paths@.len(),
            all_v == paths@.map_values(|p: PartialPath| p@),
            r@.map_values(|p: PartialPath| p@) == spec_unshadowed_views(all_v, i as int),
    {
        let mut shadowed = false;
        let m = paths.len();
        for q in 0..m
            invariant
                n == paths@.len(),
                m == paths@.len(),
                all_v == paths@.map_values(|p: PartialPath| p@),
                i < n,
                !shadowed ==> forall|x: int|
                    0 <= x < q ==> !spec_shadows(#[trigger] all_v[x], all_v[i as int]),
                shadowed ==> exists|x: int|
                    0 <= x < all_v.len() && spec_shadows(#[trigger] all_v[x], all_v[i as int]),
            decreases m - q,
        {
            if !shadowed && paths[q].shadows(&paths[i]) {
                shadowed = true;
                proof {
                    assert(spec_shadows(#[trigger] all_v[q as int], all_v[i as int]));
                }
            }
        }
        let ghost r_before = r@.map_values(|p: PartialPath| p@);
        if !shadowed {
            r.push(paths[i].clone());
        }
        proof {
            if !shadowed {
                assert(r@.map_values(|p: PartialPath| p@) =~= r_before.push(all_v[i as int]));
            } else {
                let w = choose|x: int|
                    0 <= x < all_v.len() && spec_shadows(#[trigger] all_v[x], all_v[i as int]);
                assert(!(forall|q2: int|
                    0 <= q2 < all_v.len() ==> !spec_shadows(#[trigger] all_v[q2], all_v[i as int])));
            }
        }
    }
    r
}

/// The outcome of a defines-assertion: success exactly when the symbols
/// defined at the position are the expected ones, and otherwise the
/// error that carries the missing and unexpected symbols.
pub open spec fn spec_defines_post(
    g: StackGraph,
    source: AssertionSource,
    expected: Seq<SymbolHandle>,
    r: Result<(), AssertionError>,
) -> bool {
    let actual = spec_symbols_of(g, source.spec_definitions(g), source.spec_definitions(g).len() as int);
    let missing = spec_unique_absent(expected, actual, expected.len() as int);
    let unexpected = spec_unique_absent(actual, expected, actual.len() as int);
    &&& (r is Ok <==> missing.len() == 0 && unexpected.len() == 0)
    &&& r is Err ==> (r->Err_0 matches AssertionError::IncorrectDefinitions {
        source: s,
        missing_symbols,
        unexpected_symbols,
    } && s == source && missing_symbols@ == missing && unexpected_symbols@ == unexpected)
}

/// The outcome of a refers-assertion, symmetric to
/// [`spec_defines_post`] over the references at the position.
pub open spec fn spec_refers_post(
    g: StackGraph,
    source: AssertionSource,
    expected: Seq<SymbolHandle>,
    r: Result<(), AssertionError>,
) -> bool {
    let actual = spec_symbols_of(g, source.spec_references(g), source.spec_references(g).len() as int);
    let missing = spec_unique_absent(expected, actual, expected.len() as int);
    let unexpected = spec_unique_absent(actual, expected, actual.len() as int);
    &&& (r is Ok <==> missing.len() == 0 && unexpected.len() == 0)
    &&& r is Err ==> (r->Err_0 matches AssertionError::IncorrectReferences {
        source: s,
        missing_symbols,
        unexpected_symbols,
    } && s == source && missing_symbols@ == missing && unexpected_symbols@ == unexpected)
}

/// A name-resolution assertion.
#[derive(Debug)]
pub enum Assertion {
    /// References at the source position resolve exactly to the given
    /// targets.
    Defined { source: AssertionSource, targets: Vec<AssertionTarget> },
    /// The source position defines exactly the given symbols.
    Defines { source: AssertionSource, symbols: Vec<SymbolHandle> },
    /// The source position refers to exactly the given symbols.
    Refers { source: AssertionSource, symbols: Vec<SymbolHandle> },
}

impl Assertion {
    /// Runs a defines-assertion: the symbols of the definitions at the
    /// position must be exactly the expected ones, compared as sets.
    fn run_defines(
        graph: &StackGraph,
        source: &AssertionSource,
        expected_symbols: &Vec<SymbolHandle>,
    ) -> (r: Result<(), AssertionError>)
        requires
            graph.wf(),
        ensures
            spec_defines_post(*graph, *source, expected_symbols@, r),
    {
        let definitions = source.iter_definitions(graph);
        proof {
            lemma_position_nodes_bounds(*graph, *source);
        }
        let actual_symbols = symbols_of(graph, &definitions);
        let missing_symbols = unique_absent(expected_symbols, &actual_symbols);
        let unexpected_symbols = unique_absent(&actual_symbols, expected_symbols);
        if missing_symbols.len() > 0 || unexpected_symbols.len() > 0 {
            return Err(
                AssertionError::IncorrectDefinitions {
                    source: *source,
                    missing_symbols,
                    unexpected_symbols,
                },
            );
        }
        Ok(())
    }

    /// Runs a refers-assertion: the symbols of the references at the
    /// position must be exactly the expected ones, compared as sets.
    fn run_refers(
        graph: &StackGraph,
        source: &AssertionSource,
        expected_symbols: &Vec<SymbolHandle>,
    ) -> (r: Result<(), AssertionError>)
        requires
            graph.wf(),
        ensures
            spec_refers_post(*graph, *source, expected_symbols@, r),
    {
        let references = source.iter_references(graph);
        proof {
            lemma_position_nodes_bounds(*graph, *source);
        }
        let actual_symbols = symbols_of(graph, &references);
        let missing_symbols = unique_absent(expected_symbols, &actual_symbols);
        let unexpected_symbols = unique_absent(&actual_symbols, expected_symbols);
        if missing_symbols.len() > 0 || unexpected_symbols.len() > 0 {
            return Err(
                AssertionError::IncorrectReferences {
                    source: *source,
                    missing_symbols,
                    unexpected_symbols,
                },
            );
        }
        Ok(())
    }

    /// Runs a defined-assertion: stitches complete paths from the
    /// references at the position, discards shadowed paths, and compares
    /// the reached definitions with the expected targets. Targets are
    /// compared on nodes that carry source information.
    #[verifier::rlimit(80)]
    #[verifier::spinoff_prover]
    fn run_defined<C: CancellationFlag>(
        graph: &StackGraph,
        db: &Database,
        source: &AssertionSource,
        expected_targets: &Vec<AssertionTarget>,
        config: StitcherConfig,
        cancellation_flag: &C,
    ) -> (r: Result<(), AssertionError>)
        requires
            graph.wf(),
            db.wf(*graph),
        ensures
            spec_defined_post(
                *graph,
                *source,
                expected_targets@,
                cancellation_flag.spec_never_cancels(),
                cancellation_flag.spec_always_cancels(),
                r,
            ),
    {
        let references = source.iter_references(graph);
        if references.len() == 0 {
            return Err(AssertionError::NoReferences { source: *source });
        }
        proof {
            lemma_position_nodes_bounds(*graph, *source);
        }
        let all_paths = match ForwardPartialPathStitcher::find_all_complete_partial_paths(
            graph,
            db,
            &references,
            config,
            cancellation_flag,
        ) {
            Ok(paths) => paths,
            Err(e) => {
                return Err(AssertionError::Cancelled(e));
            },
        };
        let ghost all_v = all_paths@.map_values(|p: PartialPath| p@);
        proof {
            if cancellation_flag.spec_always_cancels() {
                if exists|k: int|
                    0 <= k < source.spec_references(*graph).len() && crate::partial::spec_initial(
                        *graph,
                        #[trigger] source.spec_references(*graph)[k],
                    ) is Ok {
                    let kw = choose|k: int|
                        0 <= k < source.spec_references(*graph).len()
                            && crate::partial::spec_initial(
                            *graph,
                            #[trigger] source.spec_references(*graph)[k],
                        ) is Ok;
                    assert(references@[kw] == source.spec_references(*graph)[kw]);
                    assert(false);
                }
            }
            assert(spec_output_wf(*graph, *db, references@, all_paths@));
            assert forall|i: int| 0 <= i < all_v.len() implies {
                &&& spec_path_wf(*graph, #[trigger] all_v[i])
                &&& crate::stitching::spec_is_complete(*graph, all_v[i])
                &&& source.spec_references(*graph).contains(all_v[i].start_node)
            } by {
                assert(all_v[i] == all_paths@[i]@);
            }
            assert(spec_outputs_wf_views(*graph, source.spec_references(*graph), all_v));
        }
        let actual_paths = filter_unshadowed(&all_paths);
        let ghost survivors = spec_unshadowed_views(all_v, all_v.len() as int);
        proof {
            assert(actual_paths@.map_values(|p: PartialPath| p@) == survivors);
            assert forall|i: int| 0 <= i < actual_paths@.len() implies (
            #[trigger] actual_paths@[i])@.end_node.index < graph.nodes@.len() by {
                assert(actual_paths@[i]@ == survivors[i]);
                lemma_unshadowed_element_membership(all_v, all_v.len() as int, i);
                let j = choose|j: int| 0 <= j < all_v.len() && #[trigger] all_v[j] == survivors[i];
                assert(spec_path_wf(*graph, all_v[j]));
            }
        }
        // targets that no surviving path reaches
        let mut missing_targets: Vec<AssertionTarget> = Vec::new();
        let nt = expected_targets.len();
        for ti in 0..nt
            invariant
                graph.wf(),
                cancellation_flag.spec_always_cancels() ==> !(exists|k: int|
                    0 <= k < source.spec_references(*graph).len() && crate::partial::spec_initial(
                        *graph,
                        #[trigger] source.spec_references(*graph)[k],
                    ) is Ok),
                nt == expected_targets@.len(),
                survivors == actual_paths@.map_values(|p: PartialPath| p@),
                forall|i: int|
                    0 <= i < actual_paths@.len() ==> (#[trigger] actual_paths@[i])@.end_node.index
                        < graph.nodes@.len(),
                missing_targets@ == spec_missing_targets(
                    *graph,
                    expected_targets@,
                    survivors,
                    ti as int,
                ),
            decreases nt - ti,
        {
            let target = expected_targets[ti];
            let mut reached = false;
            let np = actual_paths.len();
            for pi in 0..np
                invariant
                    graph.wf(),
                    np == actual_paths@.len(),
                    np == survivors.len(),
                    survivors == actual_paths@.map_values(|p: PartialPath| p@),
                    forall|i: int|
                        0 <= i < actual_paths@.len() ==> (
                        #[trigger] actual_paths@[i])@.end_node.index < graph.nodes@.len(),
                    reached <==> exists|p: int|
                        0 <= p < pi && spec_target_matches_view(
                            *graph,
                            target,
                            #[trigger] survivors[p],
                        ),
                decreases np - pi,
            {
                proof {
                    assert(actual_paths@[pi as int]@ == survivors[pi as int]);
                }
                let end = actual_paths[pi].end_node;
                let has_info: bool = match graph.node(end).id.file {
                    Some(_) => match graph.source_info(end) {
                        Some(_) => true,
                        None => false,
                    },
                    None => false,
                };
                if has_info && target.matches_node(end, graph) {
                    reached = true;
                    proof {
                        assert(spec_target_matches_view(
                            *graph,
                            target,
                            #[trigger] survivors[pi as int],
                        ));
                    }
                } else {
                    proof {
                        assert(!spec_target_matches_view(*graph, target, survivors[pi as int]));
                    }
                }
            }
            proof {
                assert(reached == spec_target_reached(*graph, target, survivors));
            }
            if !reached {
                let already: bool = {
                    let mut found = false;
                    let nm = missing_targets.len();
                    for mi in 0..nm
                        invariant
                            nm == missing_targets@.len(),
                            found <==> exists|x: int|
                                0 <= x < mi && #[trigger] missing_targets@[x] == target,
                        decreases nm - mi,
                    {
                        if missing_targets[mi] == target {
                            found = true;
                            proof {
                                assert(missing_targets@[mi as int] == target);
                            }
                        }
                    }
                    found
                };
                proof {
                    assert(already == missing_targets@.contains(target));
                }
                if !already {
                    missing_targets.push(target);
                }
            }
        }
        // surviving paths whose end matches no expected target
        let mut unexpected_paths: Vec<PartialPath> = Vec::new();
        let np = actual_paths.len();
        for pi in 0..np
            invariant
                graph.wf(),
                cancellation_flag.spec_always_cancels() ==> !(exists|k: int|
                    0 <= k < source.spec_references(*graph).len() && crate::partial::spec_initial(
                        *graph,
                        #[trigger] source.spec_references(*graph)[k],
                    ) is Ok),
                np == actual_paths@.len(),
                np == survivors.len(),
                nt == expected_targets@.len(),
                survivors == actual_paths@.map_values(|p: PartialPath| p@),
                forall|i: int|
                    0 <= i < actual_paths@.len() ==> (#[trigger] actual_paths@[i])@.end_node.index
                        < graph.nodes@.len(),
                unexpected_paths@.map_values(|p: PartialPath| p@) == spec_unexpected_views(
                    *graph,
                    expected_targets@,
                    survivors,
                    pi as int,
                ),
            decreases np - pi,
        {
            proof {
                assert(actual_paths@[pi as int]@ == survivors[pi as int]);
            }
            let end = actual_paths[pi].end_node;
            let mut expected = false;
            for ti in 0..nt
                invariant
                    graph.wf(),
                    nt == expected_targets@.len(),
                    np == survivors.len(),
                    pi < np,
                    end == survivors[pi as int].end_node,
                    end.index < graph.nodes@.len(),
                    expected <==> exists|k: int|
                        0 <= k < ti && spec_target_matches_view(
                            *graph,
                            #[trigger] expected_targets@[k],
                            survivors[pi as int],
                        ),
                decreases nt - ti,
            {
                let has_info: bool = match graph.node(end).id.file {
                    Some(_) => match graph.source_info(end) {
                        Some(_) => true,
                        None => false,
                    },
                    None => false,
                };
                if has_info && expected_targets[ti].matches_node(end, graph) {
                    expected = true;
                    proof {
                        assert(spec_target_matches_view(
                            *graph,
                            #[trigger] expected_targets@[ti as int],
                            survivors[pi as int],
                        ));
                    }
                } else {
                    proof {
                        assert(!spec_target_matches_view(
                            *graph,
                            expected_targets@[ti as int],
                            survivors[pi as int],
                        ));
                    }
                }
            }
            proof {
                assert(expected == spec_reaches_some_target(
                    *graph,
                    expected_targets@,
                    survivors[pi as int],
                ));
            }
            let ghost unexpected_before = unexpected_paths@.map_values(|p: PartialPath| p@);
            if !expected {
                unexpected_paths.push(actual_paths[pi].clone());
                proof {
                    assert(unexpected_paths@.map_values(|p: PartialPath| p@)
                        =~= unexpected_before.push(survivors[pi as int]));
                }
            }
        }
        if missing_targets.len() > 0 || unexpected_paths.len() > 0 {
            let result: Result<(), AssertionError> = Err(
                AssertionError::IncorrectlyDefined {
                    source: *source,
                    references,
                    missing_targets,
                    unexpected_paths,
                },
            );
            proof {
                let e = result->Err_0;
                assert(spec_defined_verdict(
                    *graph,
                    *source,
                    expected_targets@,
                    all_v,
                    e->IncorrectlyDefined_missing_targets@,
                    e->IncorrectlyDefined_unexpected_paths@,
                ));
                let unexpected = e->IncorrectlyDefined_unexpected_paths;
                assert forall|i: int| 0 <= i < unexpected@.len() implies {
                    &&& spec_path_wf(*graph, (#[trigger] unexpected@[i])@)
                    &&& crate::stitching::spec_is_complete(*graph, unexpected@[i]@)
                    &&& source.spec_references(*graph).contains(unexpected@[i]@.start_node)
                } by {
                    assert(unexpected@[i]@ == spec_unexpected_views(
                        *graph,
                        expected_targets@,
                        survivors,
                        survivors.len() as int,
                    )[i]);
                    lemma_unexpected_element_membership(
                        *graph,
                        expected_targets@,
                        survivors,
                        survivors.len() as int,
                        i,
                    );
                    let js = choose|j: int|
                        0 <= j < survivors.len() && #[trigger] survivors[j] == spec_unexpected_views(
                            *graph,
                            expected_targets@,
                            survivors,
                            survivors.len() as int,
                        )[i];
                    lemma_unshadowed_element_membership(all_v, all_v.len() as int, js);
                    let ja = choose|j: int|
                        0 <= j < all_v.len() && #[trigger] all_v[j] == survivors[js];
                    assert(spec_path_wf(*graph, all_v[ja]));
                }
                assert(spec_defined_post(
                    *graph,
                    *source,
                    expected_targets@,
                    cancellation_flag.spec_never_cancels(),
                    cancellation_flag.spec_always_cancels(),
                    result,
                ));
            }
            return result;
        }
        proof {
            let empty_paths = Seq::<PartialPath>::empty();
            assert(missing_targets@ =~= Seq::<AssertionTarget>::empty());
            assert(empty_paths.map_values(|p: PartialPath| p@) =~= spec_unexpected_views(
                *graph,
                expected_targets@,
                survivors,
                survivors.len() as int,
            ));
            assert(spec_defined_verdict(
                *graph,
                *source,
                expected_targets@,
                all_v,
                Seq::empty(),
                empty_paths,
            ));
        }
        Ok(())
    }

    /// Runs this assertion against a stack graph, using the database of
    /// precomputed partial paths for defined-assertions.
    pub fn run<C: CancellationFlag>(
        &self,
        graph: &StackGraph,
        db: &Database,
        config: StitcherConfig,
        cancellation_flag: &C,
    ) -> (r: Result<(), AssertionError>)
        requires
            graph.wf(),
            db.wf(*graph),
        ensures
            self is Defines ==> spec_defines_post(
                *graph,
                self->Defines_source,
                self->Defines_symbols@,
                r,
            ),
            self is Refers ==> spec_refers_post(
                *graph,
                self->Refers_source,
                self->Refers_symbols@,
                r,
            ),
            self is Defined ==> spec_defined_post(
                *graph,
                self->Defined_source,
                self->Defined_targets@,
                cancellation_flag.spec_never_cancels(),
                cancellation_flag.spec_always_cancels(),
                r,
            ),
    {
        match self {
            Assertion::Defined { source, targets } => Assertion::run_defined(
                graph,
                db,
                source,
                targets,
                config,
                cancellation_flag,
            ),
            Assertion::Defines { source, symbols } => Assertion::run_defines(
                graph,
                source,
                symbols,
            ),
            Assertion::Refers { source, symbols } => Assertion::run_refers(graph, source, symbols),
        }
    }
}

/// Every path kept as unexpected is one of the surviving paths it was
/// selected from.
proof fn lemma_unexpected_element_membership(
    g: StackGraph,
    targets: Seq<AssertionTarget>,
    actual: Seq<crate::partial::PartialPathView>,
    n: int,
    i: int,
)
    requires
        n <= actual.len(),
        0 <= i < spec_unexpected_views(g, targets, actual, n).len(),
    ensures
        exists|j: int|
            0 <= j < actual.len() && #[trigger] actual[j] == spec_unexpected_views(
                g,
                targets,
                actual,
                n,
            )[i],
    decreases n,
{
    if n > 0 {
        let rest = spec_unexpected_views(g, targets, actual, n - 1);
        if i < rest.len() {
            lemma_unexpected_element_membership(g, targets, actual, n - 1, i);
        } else {
            assert(actual[n - 1] == spec_unexpected_views(g, targets, actual, n)[i]);
        }
    }
}

/// Every survivor of the unshadowed filter is one of the input paths.
proof fn lemma_unshadowed_element_membership(
    all: Seq<crate::partial::PartialPathView>,
    n: int,
    i: int,
)
    requires
        n <= all.len(),
        0 <= i < spec_unshadowed_views(all, n).len(),
    ensures
        exists|j: int| 0 <= j < all.len() && #[trigger] all[j] == spec_unshadowed_views(all, n)[i],
    decreases n,
{
    if n > 0 {
        let rest = spec_unshadowed_views(all, n - 1);
        if i < rest.len() {
            lemma_unshadowed_element_membership(all, n - 1, i);
        } else {
            assert(all[n - 1] == spec_unshadowed_views(all, n)[i]);
        }
    }
}

/// Every node returned by the position queries resolves in the graph.
proof fn lemma_position_nodes_bounds(g: StackGraph, source: AssertionSource)
    ensures
        forall|k: int|
            0 <= k < source.spec_definitions(g).len() ==> (#[trigger] source.spec_definitions(g)[
                k
            ]).index < g.nodes@.len(),
        forall|k: int|
            0 <= k < source.spec_references(g).len() ==> (#[trigger] source.spec_references(g)[
                k
            ]).index < g.nodes@.len(),
{
    lemma_position_nodes_bounds_up_to(g, source, g.nodes@.len() as int);
}

proof fn lemma_position_nodes_bounds_up_to(g: StackGraph, source: AssertionSource, n: int)
    requires
        n <= g.nodes@.len(),
    ensures
        forall|k: int|
            0 <= k < source.spec_definitions_up_to(g, n).len() ==> (
            #[trigger] source.spec_definitions_up_to(g, n)[k]).index < g.nodes@.len(),
        forall|k: int|
            0 <= k < source.spec_references_up_to(g, n).len() ==> (
            #[trigger] source.spec_references_up_to(g, n)[k]).index < g.nodes@.len(),
    decreases n,
{
    if n > 0 {
        lemma_position_nodes_bounds_up_to(g, source, n - 1);
        let dr = source.spec_definitions_up_to(g, n - 1);
        let dw = source.spec_definitions_up_to(g, n);
        assert forall|k: int| 0 <= k < dw.len() implies (#[trigger] dw[k]).index
            < g.nodes@.len() by {
            if k < dr.len() {
                assert(dw[k] == dr[k]);
            }
        }
        let rr = source.spec_references_up_to(g, n - 1);
        let rw = source.spec_references_up_to(g, n);
        assert forall|k: int| 0 <= k < rw.len() implies (#[trigger] rw[k]).index
            < g.nodes@.len() by {
            if k < rr.len() {
                assert(rw[k] == rr[k]);
            }
        }
    }
}

} // verus!
