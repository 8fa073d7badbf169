//! Partial paths: path fragments whose stack behaviour is captured by
//! pre- and postconditions over the symbol and scope stacks.
//!
//! A partial path maps a caller's stacks to result stacks. Each of its four
//! stacks holds a concrete part (the top of the stack, with the top element
//! stored last) and may end in a *variable* standing for the unknown tail
//! below the concrete part. The same variable appearing in a precondition
//! and a postcondition expresses pass-through of the unknown tail. Variable
//! numbers are local to one partial path; two partial paths never share
//! variables, and composition rebinds them as needed.
//!
//! Every stored or constructed partial path keeps the invariant that a
//! variable appearing in a postcondition also appears in the corresponding
//! precondition, so a postcondition never mentions an unbound tail.

use vstd::prelude::*;

use crate::graph::Edge;
use crate::graph::NodeHandle;
use crate::graph::NodeKind;
use crate::graph::StackGraph;
use crate::graph::SymbolHandle;
use crate::paths::PathResolutionError;

verus! {

/// A symbol-stack element: a symbol together with an optional attached
/// scope list (for member access), stored bottom-first.
#[derive(Debug)]
pub struct PartialScopedSymbol {
    pub symbol: SymbolHandle,
    pub scopes: Option<Vec<NodeHandle>>,
}

/// The mathematical value of a [`PartialScopedSymbol`].
#[verifier::ext_equal]
pub ghost struct ScopedSymbolView {
    pub symbol: SymbolHandle,
    pub scopes: Option<Seq<NodeHandle>>,
}

impl View for PartialScopedSymbol {
    type V = ScopedSymbolView;

    open spec fn view(&self) -> ScopedSymbolView {
        ScopedSymbolView {
            symbol: self.symbol,
            scopes: match self.scopes {
                Some(v) => Some(v@),
                None => None,
            },
        }
    }
}

/// A symbol stack with an optional trailing variable. The concrete part is
/// stored bottom-first: the last element is the top of the stack. The
/// variable, if present, stands for an unknown tail below the concrete
/// part.
#[derive(Debug)]
pub struct PartialSymbolStack {
    pub symbols: Vec<PartialScopedSymbol>,
    pub variable: Option<u32>,
}

/// The mathematical value of a [`PartialSymbolStack`].
#[verifier::ext_equal]
pub ghost struct SymbolStackView {
    pub symbols: Seq<ScopedSymbolView>,
    pub variable: Option<u32>,
}

impl View for PartialSymbolStack {
    type V = SymbolStackView;

    open spec fn view(&self) -> SymbolStackView {
        SymbolStackView {
            symbols: self.symbols@.map_values(|s: PartialScopedSymbol| s@),
            variable: self.variable,
        }
    }
}

/// A scope stack with an optional trailing variable, stored bottom-first
/// like the symbol stack.
#[derive(Debug)]
pub struct PartialScopeStack {
    pub scopes: Vec<NodeHandle>,
    pub variable: Option<u32>,
}

/// The mathematical value of a [`PartialScopeStack`].
#[verifier::ext_equal]
pub ghost struct ScopeStackView {
    pub scopes: Seq<NodeHandle>,
    pub variable: Option<u32>,
}

impl View for PartialScopeStack {
    type V = ScopeStackView;

    open spec fn view(&self) -> ScopeStackView {
        ScopeStackView { scopes: self.scopes@, variable: self.variable }
    }
}

/// A partial path: a fragment of a name-binding path, with stack pre- and
/// postconditions and the ordered list of graph edges it traversed.
#[derive(Debug)]
pub struct PartialPath {
    pub start_node: NodeHandle,
    pub end_node: NodeHandle,
    pub symbol_stack_precondition: PartialSymbolStack,
    pub scope_stack_precondition: PartialScopeStack,
    pub symbol_stack_postcondition: PartialSymbolStack,
    pub scope_stack_postcondition: PartialScopeStack,
    pub edges: Vec<Edge>,
}

/// The mathematical value of a [`PartialPath`].
#[verifier::ext_equal]
pub ghost struct PartialPathView {
    pub start_node: NodeHandle,
    pub end_node: NodeHandle,
    pub sym_pre: SymbolStackView,
    pub scope_pre: ScopeStackView,
    pub sym_post: SymbolStackView,
    pub scope_post: ScopeStackView,
    pub edges: Seq<Edge>,
}

impl View for PartialPath {
    type V = PartialPathView;

    open spec fn view(&self) -> PartialPathView {
        PartialPathView {
            start_node: self.start_node,
            end_node: self.end_node,
            sym_pre: self.symbol_stack_precondition@,
            scope_pre: self.scope_stack_precondition@,
            sym_post: self.symbol_stack_postcondition@,
            scope_post: self.scope_stack_postcondition@,
            edges: self.edges@,
        }
    }
}

/// The variable discipline of a well-formed partial path: a variable in a
/// postcondition also heads the corresponding precondition.
pub open spec fn spec_variables_wf(p: PartialPathView) -> bool {
    &&& match p.sym_post.variable {
        Some(v) => p.sym_pre.variable == Some(v),
        None => true,
    }
    &&& match p.scope_post.variable {
        Some(v) => p.scope_pre.variable == Some(v),
        None => true,
    }
}

/// The edge list of a well-formed partial path is connected: consecutive
/// edges share a node, the first edge leaves the start node, and the last
/// edge arrives at the end node. A traversal of the jump-to-scope node
/// records the implicit edge from the jump node to the scope it jumped to,
/// so connectedness holds across jumps as well.
pub open spec fn spec_edges_wf(g: StackGraph, p: PartialPathView) -> bool {
    &&& forall|i: int|
        0 <= i < p.edges.len() - 1 ==> (#[trigger] p.edges[i]).sink == p.edges[i + 1].source
    &&& forall|i: int|
        0 <= i < p.edges.len() ==> (#[trigger] p.edges[i]).source.index < g.nodes@.len() && p.edges[
            i
        ].sink.index < g.nodes@.len()
    &&& p.edges.len() > 0 ==> p.edges[0].source == p.start_node
    &&& p.edges.len() == 0 ==> p.start_node == p.end_node
    &&& p.edges.len() > 0 ==> p.edges[p.edges.len() - 1].sink == p.end_node
}

/// Every attached scope list of the symbol-stack condition holds only
/// scope handles that resolve in `g`.
pub open spec fn spec_sym_stack_bounded(g: StackGraph, s: SymbolStackView) -> bool {
    forall|i: int, j: int|
        0 <= i < s.symbols.len() && (#[trigger] s.symbols[i]).scopes is Some && 0 <= j
            < s.symbols[i].scopes->Some_0.len() ==> (#[trigger] s.symbols[i].scopes->Some_0[
            j
        ]).index < g.nodes@.len()
}

/// Every scope handle of the scope-stack condition resolves in `g`.
pub open spec fn spec_scope_stack_bounded(g: StackGraph, s: ScopeStackView) -> bool {
    forall|i: int| 0 <= i < s.scopes.len() ==> (#[trigger] s.scopes[i]).index < g.nodes@.len()
}

/// All scope handles held by the stacks of `p` resolve in `g`.
pub open spec fn spec_scopes_wf(g: StackGraph, p: PartialPathView) -> bool {
    &&& spec_scope_stack_bounded(g, p.scope_pre)
    &&& spec_scope_stack_bounded(g, p.scope_post)
    &&& spec_sym_stack_bounded(g, p.sym_pre)
    &&& spec_sym_stack_bounded(g, p.sym_post)
}

/// Well-formedness of a partial path with respect to a graph: endpoints
/// resolve, the variable discipline holds, the edge list is connected, and
/// every scope handle resolves.
pub open spec fn spec_path_wf(g: StackGraph, p: PartialPathView) -> bool {
    &&& p.start_node.index < g.nodes@.len()
    &&& p.end_node.index < g.nodes@.len()
    &&& spec_variables_wf(p)
    &&& spec_edges_wf(g, p)
    &&& spec_scopes_wf(g, p)
}

/// The view of the identity partial path at `node`: empty concrete stacks,
/// with the initial symbol-stack variable `1` and scope-stack variable `2`
/// passed through unchanged from precondition to postcondition.
pub open spec fn spec_from_node(node: NodeHandle) -> PartialPathView {
    PartialPathView {
        start_node: node,
        end_node: node,
        sym_pre: SymbolStackView { symbols: Seq::empty(), variable: Some(1u32) },
        scope_pre: ScopeStackView { scopes: Seq::empty(), variable: Some(2u32) },
        sym_post: SymbolStackView { symbols: Seq::empty(), variable: Some(1u32) },
        scope_post: ScopeStackView { scopes: Seq::empty(), variable: Some(2u32) },
        edges: Seq::empty(),
    }
}

/// The result of binding every stack variable of `p` to the empty stack.
pub open spec fn spec_eliminate_variables(p: PartialPathView) -> PartialPathView {
    PartialPathView {
        sym_pre: SymbolStackView { symbols: p.sym_pre.symbols, variable: None },
        scope_pre: ScopeStackView { scopes: p.scope_pre.scopes, variable: None },
        sym_post: SymbolStackView { symbols: p.sym_post.symbols, variable: None },
        scope_post: ScopeStackView { scopes: p.scope_post.scopes, variable: None },
        ..p
    }
}

fn clone_handles(v: &Vec<NodeHandle>) -> (r: Vec<NodeHandle>)
    ensures
        r@ == v@,
{
    let mut r: Vec<NodeHandle> = Vec::new();
    let n = v.len();
    for i in 0..n
        invariant
            n == v@.len(),
            r@ == v@.take(i as int),
    {
        r.push(v[i]);
        proof {
            assert(v@.take(i + 1) =~= v@.take(i as int).push(v@[i as int]));
        }
    }
    proof {
        assert(v@.take(n as int) =~= v@);
    }
    r
}

impl Clone for PartialScopedSymbol {
    fn clone(&self) -> (r: Self)
        ensures
            r@ == self@,
    {
        PartialScopedSymbol {
            symbol: self.symbol,
            scopes: match &self.scopes {
                Some(v) => Some(clone_handles(v)),
                None => None,
            },
        }
    }
}

impl PartialScopedSymbol {
    /// Structural equality of symbol-stack elements.
    pub fn equals(&self, other: &PartialScopedSymbol) -> (r: bool)
        ensures
            r == (self@ == other@),
    {
        if self.symbol != other.symbol {
            proof {
                assert(self@.symbol != other@.symbol);
            }
            return false;
        }
        match (&self.scopes, &other.scopes) {
            (None, None) => true,
            (Some(a), Some(b)) => {
                if a.len() != b.len() {
                    return false;
                }
                let n = a.len();
                for i in 0..n
                    invariant
                        n == a@.len(),
                        n == b@.len(),
                        self.scopes == Some(*a),
                        other.scopes == Some(*b),
                        forall|j: int| 0 <= j < i ==> a@[j] == b@[j],
                {
                    if a[i] != b[i] {
                        return false;
                    }
                }
                proof {
                    assert(a@ =~= b@);
                }
                true
            },
            _ => false,
        }
    }
}

fn clone_scoped_symbols(v: &Vec<PartialScopedSymbol>) -> (r: Vec<PartialScopedSymbol>)
    ensures
        r@.map_values(|s: PartialScopedSymbol| s@) == v@.map_values(
            |s: PartialScopedSymbol| s@,
        ),
{
    let mut r: Vec<PartialScopedSymbol> = Vec::new();
    let n = v.len();
    for i in 0..n
        invariant
            n == v@.len(),
            r@.len() == i,
            forall|j: int| 0 <= j < i ==> (#[trigger] r@[j])@ == v@[j]@,
    {
        r.push(v[i].clone());
    }
    proof {
        assert(r@.map_values(|s: PartialScopedSymbol| s@) =~= v@.map_values(
            |s: PartialScopedSymbol| s@,
        ));
    }
    r
}

impl Clone for PartialSymbolStack {
    fn clone(&self) -> (r: Self)
        ensures
            r@ == self@,
    {
        PartialSymbolStack { symbols: clone_scoped_symbols(&self.symbols), variable: self.variable }
    }
}

impl PartialSymbolStack {
    /// An empty stack ending in the given variable.
    pub fn from_variable(variable: u32) -> (r: PartialSymbolStack)
        ensures
            r@ == (SymbolStackView { symbols: Seq::empty(), variable: Some(variable) }),
    {
        let r = PartialSymbolStack { symbols: Vec::new(), variable: Some(variable) };
        proof {
            assert(r@.symbols =~= Seq::<ScopedSymbolView>::empty());
        }
        r
    }

    /// The number of concrete elements.
    pub fn len(&self) -> (r: usize)
        ensures
            r == self@.symbols.len(),
    {
        self.symbols.len()
    }

    pub fn has_variable(&self) -> (r: bool)
        ensures
            r == (self@.variable is Some),
    {
        self.variable.is_some()
    }
}

impl Clone for PartialScopeStack {
    fn clone(&self) -> (r: Self)
        ensures
            r@ == self@,
    {
        PartialScopeStack { scopes: clone_handles(&self.scopes), variable: self.variable }
    }
}

impl PartialScopeStack {
    /// An empty stack ending in the given variable.
    pub fn from_variable(variable: u32) -> (r: PartialScopeStack)
        ensures
            r@ == (ScopeStackView { scopes: Seq::empty(), variable: Some(variable) }),
    {
        let r = PartialScopeStack { scopes: Vec::new(), variable: Some(variable) };
        proof {
            assert(r@.scopes =~= Seq::<NodeHandle>::empty());
        }
        r
    }

    /// The number of concrete elements.
    pub fn len(&self) -> (r: usize)
        ensures
            r == self@.scopes.len(),
    {
        self.scopes.len()
    }

    pub fn has_variable(&self) -> (r: bool)
        ensures
            r == (self@.variable is Some),
    {
        self.variable.is_some()
    }
}

impl Clone for PartialPath {
    fn clone(&self) -> (r: Self)
        ensures
            r@ == self@,
    {
        let r = PartialPath {
            start_node: self.start_node,
            end_node: self.end_node,
            symbol_stack_precondition: self.symbol_stack_precondition.clone(),
            scope_stack_precondition: self.scope_stack_precondition.clone(),
            symbol_stack_postcondition: self.symbol_stack_postcondition.clone(),
            scope_stack_postcondition: self.scope_stack_postcondition.clone(),
            edges: clone_edges(&self.edges),
        };
        proof {
            assert(r@ =~~= self@);
        }
        r
    }
}

fn clone_edges(v: &Vec<Edge>) -> (r: Vec<Edge>)
    ensures
        r@ == v@,
{
    let mut r: Vec<Edge> = Vec::new();
    let n = v.len();
    for i in 0..n
        invariant
            n == v@.len(),
            r@ == v@.take(i as int),
    {
        r.push(v[i]);
        proof {
            assert(v@.take(i + 1) =~= v@.take(i as int).push(v@[i as int]));
        }
    }
    proof {
        assert(v@.take(n as int) =~= v@);
    }
    r
}

impl PartialPath {
    /// The identity partial path at `node`: empty concrete stacks, the
    /// unknown stack tails passed through unchanged. Composing it in front
    /// of any partial path starting at `node` leaves that path unchanged.
    pub fn from_node(graph: &StackGraph, node: NodeHandle) -> (r: PartialPath)
        requires
            graph.wf(),
            graph.node_in_bounds(node),
        ensures
            r@ == spec_from_node(node),
            spec_path_wf(*graph, r@),
    {
        let r = PartialPath {
            start_node: node,
            end_node: node,
            symbol_stack_precondition: PartialSymbolStack::from_variable(1),
            scope_stack_precondition: PartialScopeStack::from_variable(2),
            symbol_stack_postcondition: PartialSymbolStack::from_variable(1),
            scope_stack_postcondition: PartialScopeStack::from_variable(2),
            edges: Vec::new(),
        };
        proof {
            assert(r@ =~~= spec_from_node(node));
        }
        r
    }

    /// True when the path's start node is a reference.
    pub fn starts_at_reference(&self, graph: &StackGraph) -> (r: bool)
        requires
            graph.wf(),
            self@.start_node.index < graph.nodes@.len(),
        ensures
            r == graph.nodes@[self@.start_node.index as int].spec_is_reference(),
    {
        graph.node(self.start_node).is_reference()
    }

    /// True when the path's end node is a definition.
    pub fn ends_at_definition(&self, graph: &StackGraph) -> (r: bool)
        requires
            graph.wf(),
            self@.end_node.index < graph.nodes@.len(),
        ensures
            r == graph.nodes@[self@.end_node.index as int].spec_is_definition(),
    {
        graph.node(self.end_node).is_definition()
    }

    /// True when the path's end node is the jump-to-scope node.
    pub fn ends_in_jump(&self, graph: &StackGraph) -> (r: bool)
        requires
            graph.wf(),
            self@.end_node.index < graph.nodes@.len(),
        ensures
            r == (graph.nodes@[self@.end_node.index as int].kind is JumpToScope),
    {
        match graph.node(self.end_node).kind {
            NodeKind::JumpToScope => true,
            _ => false,
        }
    }

    /// Binds every precondition variable to the empty stack: the path then
    /// applies only to empty caller stacks. Because a postcondition
    /// variable always equals the precondition's, the postcondition
    /// variables are erased with them.
    pub fn eliminate_precondition_stack_variables(&mut self)
        requires
            spec_variables_wf(old(self)@),
        ensures
            final(self)@ == spec_eliminate_variables(old(self)@),
            spec_variables_wf(final(self)@),
    {
        self.symbol_stack_precondition.variable = None;
        self.scope_stack_precondition.variable = None;
        self.symbol_stack_postcondition.variable = None;
        self.scope_stack_postcondition.variable = None;
    }
}

/// The stack effect of stepping onto node `n`, per its kind: pushes extend
/// the symbol postcondition; pops consume from it, or — when only a
/// variable tail remains — grow the precondition with the demanded symbol;
/// jump-to-scope pops the scope postcondition and teleports the end of the
/// path to the popped scope; root, scope and internal nodes have no stack
/// effect. The edge list is not touched here.
pub open spec fn spec_apply_node(g: StackGraph, p: PartialPathView, n: NodeHandle) -> Result<
    PartialPathView,
    PathResolutionError,
> {
    match g.nodes@[n.index as int].kind {
        NodeKind::Root => Ok(PartialPathView { end_node: n, ..p }),
        NodeKind::Scope { .. } => Ok(PartialPathView { end_node: n, ..p }),
        NodeKind::Internal => Ok(PartialPathView { end_node: n, ..p }),
        NodeKind::PushSymbol { symbol, .. } => Ok(
            PartialPathView {
                end_node: n,
                sym_post: SymbolStackView {
                    symbols: p.sym_post.symbols.push(ScopedSymbolView { symbol, scopes: None }),
                    variable: p.sym_post.variable,
                },
                ..p
            },
        ),
        NodeKind::PushScopedSymbol { symbol, scope, .. } => {
            if !g.nodes@[scope.index as int].spec_is_exported_scope() {
                Err(PathResolutionError::UnknownAttachedScope)
            } else {
                Ok(
                    PartialPathView {
                        end_node: n,
                        sym_post: SymbolStackView {
                            symbols: p.sym_post.symbols.push(
                                ScopedSymbolView { symbol, scopes: Some(seq![scope]) },
                            ),
                            variable: p.sym_post.variable,
                        },
                        ..p
                    },
                )
            }
        },
        NodeKind::PopSymbol { symbol, .. } => {
            if p.sym_post.symbols.len() > 0 {
                let top = p.sym_post.symbols.last();
                if top.symbol != symbol {
                    Err(PathResolutionError::IncorrectPoppedSymbol)
                } else if top.scopes is Some {
                    Err(PathResolutionError::UnexpectedAttachedScopeList)
                } else {
                    Ok(
                        PartialPathView {
                            end_node: n,
                            sym_post: SymbolStackView {
                                symbols: p.sym_post.symbols.drop_last(),
                                variable: p.sym_post.variable,
                            },
                            ..p
                        },
                    )
                }
            } else if p.sym_post.variable is Some {
                Ok(
                    PartialPathView {
                        end_node: n,
                        sym_pre: SymbolStackView {
                            symbols: seq![ScopedSymbolView { symbol, scopes: None }]
                                + p.sym_pre.symbols,
                            variable: p.sym_pre.variable,
                        },
                        ..p
                    },
                )
            } else {
                Err(PathResolutionError::EmptySymbolStack)
            }
        },
        NodeKind::PopScopedSymbol { symbol, .. } => {
            if p.sym_post.symbols.len() > 0 {
                let top = p.sym_post.symbols.last();
                if top.symbol != symbol {
                    Err(PathResolutionError::IncorrectPoppedSymbol)
                } else {
                    match top.scopes {
                        None => Err(PathResolutionError::MissingAttachedScopeList),
                        Some(list) => Ok(
                            PartialPathView {
                                end_node: n,
                                sym_post: SymbolStackView {
                                    symbols: p.sym_post.symbols.drop_last(),
                                    variable: p.sym_post.variable,
                                },
                                scope_post: ScopeStackView {
                                    scopes: p.scope_post.scopes + list,
                                    variable: p.scope_post.variable,
                                },
                                ..p
                            },
                        ),
                    }
                }
            } else if p.sym_post.variable is Some {
                Err(PathResolutionError::MissingAttachedScopeList)
            } else {
                Err(PathResolutionError::EmptySymbolStack)
            }
        },
        NodeKind::JumpToScope => {
            if p.scope_post.scopes.len() > 0 {
                Ok(
                    PartialPathView {
                        end_node: p.scope_post.scopes.last(),
                        scope_post: ScopeStackView {
                            scopes: p.scope_post.scopes.drop_last(),
                            variable: p.scope_post.variable,
                        },
                        ..p
                    },
                )
            } else {
                Err(PathResolutionError::EmptyScopeStack)
            }
        },
    }
}

/// Extending a partial path by one graph edge: the edge must leave the
/// current end of the path; the sink's stack effect is applied and the
/// edge is recorded. Stepping onto the jump-to-scope node also records the
/// implicit edge from the jump node to the scope it teleports to.
pub open spec fn spec_append(g: StackGraph, p: PartialPathView, edge: Edge) -> Result<
    PartialPathView,
    PathResolutionError,
> {
    if edge.source != p.end_node {
        Err(PathResolutionError::IncorrectSourceNode)
    } else {
        match spec_apply_node(g, p, edge.sink) {
            Ok(q) => {
                let edges = if g.nodes@[edge.sink.index as int].kind is JumpToScope {
                    p.edges.push(edge).push(
                        Edge { source: edge.sink, sink: q.end_node, precedence: 0i32 },
                    )
                } else {
                    p.edges.push(edge)
                };
                Ok(PartialPathView { edges, ..q })
            },
            Err(e) => Err(e),
        }
    }
}

/// The initial partial path of a search seeded at `node`: the identity
/// path at `node` with the node's own stack effect applied.
pub open spec fn spec_initial(g: StackGraph, node: NodeHandle) -> Result<
    PartialPathView,
    PathResolutionError,
> {
    spec_apply_node(g, spec_from_node(node), node)
}

impl PartialPath {
    /// Applies the stack effect of `node` to this path, leaving the edge
    /// list alone.
    fn apply_node(&mut self, graph: &StackGraph, node: NodeHandle) -> (r: Result<
        (),
        PathResolutionError,
    >)
        requires
            graph.wf(),
            node.index < graph.nodes@.len(),
        ensures
            r is Ok ==> Ok::<PartialPathView, PathResolutionError>(final(self)@)
                == spec_apply_node(*graph, old(self)@, node),
            r is Err ==> *final(self) == *old(self) && Err::<PartialPathView, PathResolutionError>(
                r->Err_0,
            ) == spec_apply_node(*graph, old(self)@, node),
    {
        let kind = graph.node(node).kind;
        match kind {
            NodeKind::Root | NodeKind::Scope { .. } | NodeKind::Internal => {
                self.end_node = node;
                proof {
                    assert(self@ =~~= spec_apply_node(*graph, old(self)@, node)->Ok_0);
                }
                Ok(())
            },
            NodeKind::PushSymbol { symbol, .. } => {
                self.symbol_stack_postcondition.symbols.push(
                    PartialScopedSymbol { symbol, scopes: None },
                );
                self.end_node = node;
                proof {
                    assert(self@.sym_post.symbols =~= old(self)@.sym_post.symbols.push(
                        ScopedSymbolView { symbol, scopes: None },
                    ));
                    assert(self@ =~~= spec_apply_node(*graph, old(self)@, node)->Ok_0);
                }
                Ok(())
            },
            NodeKind::PushScopedSymbol { symbol, scope, .. } => {
                if !graph.node(scope).is_exported_scope() {
                    return Err(PathResolutionError::UnknownAttachedScope);
                }
                let mut attached: Vec<NodeHandle> = Vec::new();
                attached.push(scope);
                self.symbol_stack_postcondition.symbols.push(
                    PartialScopedSymbol { symbol, scopes: Some(attached) },
                );
                self.end_node = node;
                proof {
                    assert(self@.sym_post.symbols =~= old(self)@.sym_post.symbols.push(
                        ScopedSymbolView { symbol, scopes: Some(seq![scope]) },
                    ));
                    assert(self@ =~~= spec_apply_node(*graph, old(self)@, node)->Ok_0);
                }
                Ok(())
            },
            NodeKind::PopSymbol { symbol, .. } => {
                let n = self.symbol_stack_postcondition.symbols.len();
                if n > 0 {
                    let top_matches = self.symbol_stack_postcondition.symbols[n - 1].symbol
                        == symbol;
                    if !top_matches {
                        return Err(PathResolutionError::IncorrectPoppedSymbol);
                    }
                    let top_scoped: bool = match &self.symbol_stack_postcondition.symbols[n
                        - 1].scopes {
                        Some(_) => true,
                        None => false,
                    };
                    if top_scoped {
                        return Err(PathResolutionError::UnexpectedAttachedScopeList);
                    }
                    let _ = self.symbol_stack_postcondition.symbols.pop();
                    self.end_node = node;
                    proof {
                        assert(self@.sym_post.symbols =~= old(self)@.sym_post.symbols.drop_last());
                        assert(self@ =~~= spec_apply_node(*graph, old(self)@, node)->Ok_0);
                    }
                    Ok(())
                } else if self.symbol_stack_postcondition.variable.is_some() {
                    self.symbol_stack_precondition.symbols.insert(
                        0,
                        PartialScopedSymbol { symbol, scopes: None },
                    );
                    self.end_node = node;
                    proof {
                        assert(self@.sym_pre.symbols =~= seq![
                            ScopedSymbolView { symbol, scopes: None },
                        ] + old(self)@.sym_pre.symbols);
                        assert(self@ =~~= spec_apply_node(*graph, old(self)@, node)->Ok_0);
                    }
                    Ok(())
                } else {
                    Err(PathResolutionError::EmptySymbolStack)
                }
            },
            NodeKind::PopScopedSymbol { symbol, .. } => {
                let n = self.symbol_stack_postcondition.symbols.len();
                if n > 0 {
                    let top_matches = self.symbol_stack_postcondition.symbols[n - 1].symbol
                        == symbol;
                    if !top_matches {
                        return Err(PathResolutionError::IncorrectPoppedSymbol);
                    }
                    let top_scoped: bool = match &self.symbol_stack_postcondition.symbols[n
                        - 1].scopes {
                        Some(_) => true,
                        None => false,
                    };
                    if !top_scoped {
                        return Err(PathResolutionError::MissingAttachedScopeList);
                    }
                    let popped = self.symbol_stack_postcondition.symbols.pop();
                    let mut list: Vec<NodeHandle> = match popped {
                        Some(PartialScopedSymbol { scopes: Some(list), .. }) => list,
                        _ => Vec::new(),
                    };
                    self.scope_stack_postcondition.scopes.append(&mut list);
                    self.end_node = node;
                    proof {
                        assert(self@.sym_post.symbols =~= old(self)@.sym_post.symbols.drop_last());
                        assert(self@ =~~= spec_apply_node(*graph, old(self)@, node)->Ok_0);
                    }
                    Ok(())
                } else if self.symbol_stack_postcondition.variable.is_some() {
                    Err(PathResolutionError::MissingAttachedScopeList)
                } else {
                    Err(PathResolutionError::EmptySymbolStack)
                }
            },
            NodeKind::JumpToScope => {
                let n = self.scope_stack_postcondition.scopes.len();
                if n > 0 {
                    let target = self.scope_stack_postcondition.scopes[n - 1];
                    let _ = self.scope_stack_postcondition.scopes.pop();
                    self.end_node = target;
                    proof {
                        assert(self@.scope_post.scopes =~= old(self)@.scope_post.scopes.drop_last());
                        assert(self@ =~~= spec_apply_node(*graph, old(self)@, node)->Ok_0);
                    }
                    Ok(())
                } else {
                    Err(PathResolutionError::EmptyScopeStack)
                }
            },
        }
    }

    /// Extends this path by one graph edge: checks that the edge leaves
    /// the path's end, applies the sink's stack effect, and records the
    /// edge. On error, the path is unchanged and the candidate can be
    /// dropped.
    pub fn append(&mut self, graph: &StackGraph, edge: Edge) -> (r: Result<
        (),
        PathResolutionError,
    >)
        requires
            graph.wf(),
            spec_path_wf(*graph, old(self)@),
            edge.source.index < graph.nodes@.len(),
            edge.sink.index < graph.nodes@.len(),
        ensures
            r is Ok ==> Ok::<PartialPathView, PathResolutionError>(final(self)@) == spec_append(
                *graph,
                old(self)@,
                edge,
            ),
            r is Ok ==> spec_path_wf(*graph, final(self)@),
            r is Err ==> *final(self) == *old(self) && Err::<PartialPathView, PathResolutionError>(
                r->Err_0,
            ) == spec_append(*graph, old(self)@, edge),
    {
        if edge.source != self.end_node {
            return Err(PathResolutionError::IncorrectSourceNode);
        }
        let ghost before = self@;
        let sink_is_jump: bool = match graph.node(edge.sink).kind {
            NodeKind::JumpToScope => true,
            _ => false,
        };
        match self.apply_node(graph, edge.sink) {
            Ok(()) => {
                self.edges.push(edge);
                if sink_is_jump {
                    let implicit = Edge { source: edge.sink, sink: self.end_node, precedence: 0 };
                    self.edges.push(implicit);
                }
                proof {
                    assert(self@ =~~= spec_append(*graph, before, edge)->Ok_0);
                    lemma_apply_node_wf(*graph, before, edge.sink);
                    let q = spec_apply_node(*graph, before, edge.sink)->Ok_0;
                    assert(spec_path_wf(*graph, self@)) by {
                        assert(forall|i: int|
                            0 <= i < before.edges.len() ==> self@.edges[i] == (
                            #[trigger] before.edges[i]));
                    }
                }
                Ok(())
            },
            Err(e) => Err(e),
        }
    }

    /// The initial partial path of a search seeded at `node`: the identity
    /// path at `node`, with the node's own stack effect applied, so that a
    /// seed reference contributes its push and a seed definition demands
    /// its symbol from the precondition.
    pub fn initial(graph: &StackGraph, node: NodeHandle) -> (r: Result<
        PartialPath,
        PathResolutionError,
    >)
        requires
            graph.wf(),
            graph.node_in_bounds(node),
        ensures
            r is Ok ==> Ok::<PartialPathView, PathResolutionError>(r->Ok_0@) == spec_initial(
                *graph,
                node,
            ),
            r is Ok ==> spec_path_wf(*graph, r->Ok_0@),
            r is Err ==> Err::<PartialPathView, PathResolutionError>(r->Err_0) == spec_initial(
                *graph,
                node,
            ),
    {
        let mut p = PartialPath::from_node(graph, node);
        match p.apply_node(graph, node) {
            Ok(()) => {
                proof {
                    lemma_apply_node_wf(*graph, spec_from_node(node), node);
                }
                Ok(p)
            },
            Err(e) => Err(e),
        }
    }
}

/// Applying a node's stack effect preserves every well-formedness clause
/// except the linkage of the edge list with the end node, which the caller
/// restores by recording the edge that led to the node (or, for a seed,
/// holds vacuously because the edge list is empty and the end is moved
/// only by a jump, which a seed cannot take).
pub proof fn lemma_apply_node_wf(g: StackGraph, p: PartialPathView, n: NodeHandle)
    requires
        g.wf(),
        n.index < g.nodes@.len(),
        p.start_node.index < g.nodes@.len(),
        spec_variables_wf(p),
        spec_scopes_wf(g, p),
        spec_apply_node(g, p, n) is Ok,
    ensures
        ({
            let q = spec_apply_node(g, p, n)->Ok_0;
            &&& q.start_node == p.start_node
            &&& q.end_node.index < g.nodes@.len()
            &&& q.edges == p.edges
            &&& spec_variables_wf(q)
            &&& spec_scopes_wf(g, q)
        }),
{
    let q = spec_apply_node(g, p, n)->Ok_0;
    let node = g.nodes@[n.index as int];
    assert(g.node_wf(node));
    match node.kind {
        NodeKind::PushScopedSymbol { symbol, scope, .. } => {
            assert forall|i: int, j: int|
                0 <= i < q.sym_post.symbols.len() && (#[trigger] q.sym_post.symbols[i]).scopes
                    is Some && 0 <= j < q.sym_post.symbols[i].scopes->Some_0.len() implies (
            #[trigger] q.sym_post.symbols[i].scopes->Some_0[j]).index < g.nodes@.len() by {
                if i < p.sym_post.symbols.len() {
                    assert(p.sym_post.symbols[i].scopes == q.sym_post.symbols[i].scopes);
                }
            }
        },
        NodeKind::PopScopedSymbol { symbol, .. } => {
            if p.sym_post.symbols.len() > 0 {
                let top = p.sym_post.symbols.last();
                if top.symbol == symbol && top.scopes is Some {
                    let list = top.scopes->Some_0;
                    assert forall|i: int|
                        0 <= i < q.scope_post.scopes.len() implies (
                    #[trigger] q.scope_post.scopes[i]).index < g.nodes@.len() by {
                        if i < p.scope_post.scopes.len() {
                            assert(p.scope_post.scopes[i] == q.scope_post.scopes[i]);
                        } else {
                            assert(q.scope_post.scopes[i] == list[i
                                - p.scope_post.scopes.len()]);
                        }
                    }
                }
            }
        },
        NodeKind::JumpToScope => {
            assert(p.scope_post.scopes.len() > 0);
            assert(q.end_node == p.scope_post.scopes.last());
        },
        _ => {},
    }
}

/// Unifies the symbol postcondition of a first path (`post1`, with its
/// precondition `pre1` alongside) against the symbol precondition of a
/// second path (`pre2`, with its postcondition `post2` alongside), and
/// returns the composed precondition and postcondition.
///
/// The concrete part of `post1` and the concrete part of `pre2` must agree
/// on their common top; whichever side is longer pushes the leftover
/// bottom part into the other side's variable. Binding a variable
/// rewrites the other stack that carries it, which is sound because a
/// well-formed path's postcondition variable always equals its
/// precondition variable.
pub open spec fn spec_unify_symbol_stacks(
    pre1: SymbolStackView,
    post1: SymbolStackView,
    pre2: SymbolStackView,
    post2: SymbolStackView,
) -> Result<(SymbolStackView, SymbolStackView), PathResolutionError> {
    let b = post1.symbols;
    let c = pre2.symbols;
    if b.len() > c.len() {
        if b.skip(b.len() - c.len()) != c {
            Err(PathResolutionError::SymbolStackUnsatisfied)
        } else if pre2.variable is None {
            Err(PathResolutionError::SymbolStackUnsatisfied)
        } else {
            let rest = b.take(b.len() - c.len());
            let new_post = if post2.variable is Some {
                SymbolStackView { symbols: rest + post2.symbols, variable: post1.variable }
            } else {
                SymbolStackView { symbols: post2.symbols, variable: None }
            };
            Ok((pre1, new_post))
        }
    } else {
        if c.skip(c.len() - b.len()) != b {
            Err(PathResolutionError::SymbolStackUnsatisfied)
        } else {
            let rest = c.take(c.len() - b.len());
            if post1.variable is Some {
                let new_pre = SymbolStackView {
                    symbols: rest + pre1.symbols,
                    variable: pre2.variable,
                };
                Ok((new_pre, post2))
            } else if rest.len() > 0 {
                Err(PathResolutionError::SymbolStackUnsatisfied)
            } else {
                let new_post = SymbolStackView { symbols: post2.symbols, variable: None };
                Ok((pre1, new_post))
            }
        }
    }
}

/// The scope-stack analogue of [`spec_unify_symbol_stacks`].
pub open spec fn spec_unify_scope_stacks(
    pre1: ScopeStackView,
    post1: ScopeStackView,
    pre2: ScopeStackView,
    post2: ScopeStackView,
) -> Result<(ScopeStackView, ScopeStackView), PathResolutionError> {
    let b = post1.scopes;
    let c = pre2.scopes;
    if b.len() > c.len() {
        if b.skip(b.len() - c.len()) != c {
            Err(PathResolutionError::ScopeStackUnsatisfied)
        } else if pre2.variable is None {
            Err(PathResolutionError::ScopeStackUnsatisfied)
        } else {
            let rest = b.take(b.len() - c.len());
            let new_post = if post2.variable is Some {
                ScopeStackView { scopes: rest + post2.scopes, variable: post1.variable }
            } else {
                ScopeStackView { scopes: post2.scopes, variable: None }
            };
            Ok((pre1, new_post))
        }
    } else {
        if c.skip(c.len() - b.len()) != b {
            Err(PathResolutionError::ScopeStackUnsatisfied)
        } else {
            let rest = c.take(c.len() - b.len());
            if post1.variable is Some {
                let new_pre = ScopeStackView { scopes: rest + pre1.scopes, variable: pre2.variable };
                Ok((new_pre, post2))
            } else if rest.len() > 0 {
                Err(PathResolutionError::ScopeStackUnsatisfied)
            } else {
                let new_post = ScopeStackView { scopes: post2.scopes, variable: None };
                Ok((pre1, new_post))
            }
        }
    }
}

/// Composition of partial paths: `p1` then `p2`, defined when `p1` ends
/// where `p2` starts and the stacks unify. The composed path inherits
/// `p1`'s start, `p2`'s end, the unified stack conditions, and the
/// concatenated edge lists.
pub open spec fn spec_compose(p1: PartialPathView, p2: PartialPathView) -> Result<
    PartialPathView,
    PathResolutionError,
> {
    if p1.end_node != p2.start_node {
        Err(PathResolutionError::IncorrectSourceNode)
    } else {
        match spec_unify_symbol_stacks(p1.sym_pre, p1.sym_post, p2.sym_pre, p2.sym_post) {
            Err(e) => Err(e),
            Ok(sym) => match spec_unify_scope_stacks(
                p1.scope_pre,
                p1.scope_post,
                p2.scope_pre,
                p2.scope_post,
            ) {
                Err(e) => Err(e),
                Ok(sc) => Ok(
                    PartialPathView {
                        start_node: p1.start_node,
                        end_node: p2.end_node,
                        sym_pre: sym.0,
                        sym_post: sym.1,
                        scope_pre: sc.0,
                        scope_post: sc.1,
                        edges: p1.edges + p2.edges,
                    },
                ),
            },
        }
    }
}

/// Compares the top `shorter.len()` elements of `longer` with `shorter`.
fn symbols_suffix_matches(longer: &Vec<PartialScopedSymbol>, shorter: &Vec<PartialScopedSymbol>) -> (r:
    bool)
    requires
        longer@.len() >= shorter@.len(),
    ensures
        r == (longer@.map_values(|s: PartialScopedSymbol| s@).skip(
            longer@.len() - shorter@.len(),
        ) == shorter@.map_values(|s: PartialScopedSymbol| s@)),
{
    let ll = longer.len();
    let d = ll - shorter.len();
    let n = shorter.len();
    let ghost lv = longer@.map_values(|s: PartialScopedSymbol| s@);
    let ghost sv = shorter@.map_values(|s: PartialScopedSymbol| s@);
    for i in 0..n
        invariant
            n == shorter@.len(),
            ll == longer@.len(),
            d + n == ll,
            d == longer@.len() - shorter@.len(),
            lv == longer@.map_values(|s: PartialScopedSymbol| s@),
            sv == shorter@.map_values(|s: PartialScopedSymbol| s@),
            forall|j: int| 0 <= j < i ==> lv.skip(d as int)[j] == sv[j],
    {
        if !longer[d + i].equals(&shorter[i]) {
            proof {
                assert(lv.skip(d as int)[i as int] != sv[i as int]);
            }
            return false;
        }
    }
    proof {
        assert(lv.skip(d as int) =~= sv);
    }
    true
}

/// Clones the bottom `k` elements of a symbol-stack vector.
fn symbols_take_prefix(v: &Vec<PartialScopedSymbol>, k: usize) -> (r: Vec<PartialScopedSymbol>)
    requires
        k <= v@.len(),
    ensures
        r@.map_values(|s: PartialScopedSymbol| s@) == v@.map_values(
            |s: PartialScopedSymbol| s@,
        ).take(k as int),
{
    let mut r: Vec<PartialScopedSymbol> = Vec::new();
    for i in 0..k
        invariant
            k <= v@.len(),
            r@.len() == i,
            forall|j: int| 0 <= j < i ==> (#[trigger] r@[j])@ == v@[j]@,
    {
        r.push(v[i].clone());
    }
    proof {
        assert(r@.map_values(|s: PartialScopedSymbol| s@) =~= v@.map_values(
            |s: PartialScopedSymbol| s@,
        ).take(k as int));
    }
    r
}

/// Compares the top `shorter.len()` elements of `longer` with `shorter`.
fn scopes_suffix_matches(longer: &Vec<NodeHandle>, shorter: &Vec<NodeHandle>) -> (r: bool)
    requires
        longer@.len() >= shorter@.len(),
    ensures
        r == (longer@.skip(longer@.len() - shorter@.len()) == shorter@),
{
    let ll = longer.len();
    let d = ll - shorter.len();
    let n = shorter.len();
    for i in 0..n
        invariant
            n == shorter@.len(),
            ll == longer@.len(),
            d + n == ll,
            d == longer@.len() - shorter@.len(),
            forall|j: int| 0 <= j < i ==> longer@.skip(d as int)[j] == shorter@[j],
    {
        if longer[d + i] != shorter[i] {
            proof {
                assert(longer@.skip(d as int)[i as int] != shorter@[i as int]);
            }
            return false;
        }
    }
    proof {
        assert(longer@.skip(d as int) =~= shorter@);
    }
    true
}

/// Clones the bottom `k` elements of a scope-stack vector.
fn scopes_take_prefix(v: &Vec<NodeHandle>, k: usize) -> (r: Vec<NodeHandle>)
    requires
        k <= v@.len(),
    ensures
        r@ == v@.take(k as int),
{
    let mut r: Vec<NodeHandle> = Vec::new();
    for i in 0..k
        invariant
            k <= v@.len(),
            r@ == v@.take(i as int),
    {
        r.push(v[i]);
        proof {
            assert(v@.take(i + 1) =~= v@.take(i as int).push(v@[i as int]));
        }
    }
    r
}

/// Unifies two symbol-stack condition pairs; see
/// [`spec_unify_symbol_stacks`].
fn unify_symbol_stacks(
    pre1: &PartialSymbolStack,
    post1: &PartialSymbolStack,
    pre2: &PartialSymbolStack,
    post2: &PartialSymbolStack,
) -> (r: Result<(PartialSymbolStack, PartialSymbolStack), PathResolutionError>)
    ensures
        r is Ok ==> spec_unify_symbol_stacks(pre1@, post1@, pre2@, post2@) == Ok::<
            _,
            PathResolutionError,
        >(((r->Ok_0).0@, (r->Ok_0).1@)),
        r is Err ==> spec_unify_symbol_stacks(pre1@, post1@, pre2@, post2@) == Err::<
            (SymbolStackView, SymbolStackView),
            _,
        >(r->Err_0),
{
    let bl = post1.symbols.len();
    let cl = pre2.symbols.len();
    if bl > cl {
        if !symbols_suffix_matches(&post1.symbols, &pre2.symbols) {
            return Err(PathResolutionError::SymbolStackUnsatisfied);
        }
        if post2.variable.is_some() {
            if pre2.variable.is_none() {
                return Err(PathResolutionError::SymbolStackUnsatisfied);
            }
            let mut symbols = symbols_take_prefix(&post1.symbols, bl - cl);
            let mut tail = clone_scoped_symbols(&post2.symbols);
            symbols.append(&mut tail);
            let new_post = PartialSymbolStack { symbols, variable: post1.variable };
            proof {
                assert(new_post@.symbols =~= post1@.symbols.take(bl - cl) + post2@.symbols);
            }
            Ok((pre1.clone(), new_post))
        } else {
            if pre2.variable.is_none() {
                return Err(PathResolutionError::SymbolStackUnsatisfied);
            }
            let new_post = PartialSymbolStack {
                symbols: clone_scoped_symbols(&post2.symbols),
                variable: None,
            };
            Ok((pre1.clone(), new_post))
        }
    } else {
        if !symbols_suffix_matches(&pre2.symbols, &post1.symbols) {
            return Err(PathResolutionError::SymbolStackUnsatisfied);
        }
        if post1.variable.is_some() {
            let mut symbols = symbols_take_prefix(&pre2.symbols, cl - bl);
            let mut tail = clone_scoped_symbols(&pre1.symbols);
            symbols.append(&mut tail);
            let new_pre = PartialSymbolStack { symbols, variable: pre2.variable };
            let new_post = PartialSymbolStack {
                symbols: clone_scoped_symbols(&post2.symbols),
                variable: post2.variable,
            };
            proof {
                assert(new_pre@.symbols =~= pre2@.symbols.take(cl - bl) + pre1@.symbols);
                assert(new_post@ =~~= post2@);
            }
            Ok((new_pre, new_post))
        } else if cl > bl {
            Err(PathResolutionError::SymbolStackUnsatisfied)
        } else {
            let new_post = PartialSymbolStack {
                symbols: clone_scoped_symbols(&post2.symbols),
                variable: None,
            };
            proof {
                assert(pre2@.symbols.take(cl - bl) =~= Seq::<ScopedSymbolView>::empty());
            }
            Ok((pre1.clone(), new_post))
        }
    }
}

/// Unifies two scope-stack condition pairs; see
/// [`spec_unify_scope_stacks`].
fn unify_scope_stacks(
    pre1: &PartialScopeStack,
    post1: &PartialScopeStack,
    pre2: &PartialScopeStack,
    post2: &PartialScopeStack,
) -> (r: Result<(PartialScopeStack, PartialScopeStack), PathResolutionError>)
    ensures
        r is Ok ==> spec_unify_scope_stacks(pre1@, post1@, pre2@, post2@) == Ok::<
            _,
            PathResolutionError,
        >(((r->Ok_0).0@, (r->Ok_0).1@)),
        r is Err ==> spec_unify_scope_stacks(pre1@, post1@, pre2@, post2@) == Err::<
            (ScopeStackView, ScopeStackView),
            _,
        >(r->Err_0),
{
    let bl = post1.scopes.len();
    let cl = pre2.scopes.len();
    if bl > cl {
        if !scopes_suffix_matches(&post1.scopes, &pre2.scopes) {
            return Err(PathResolutionError::ScopeStackUnsatisfied);
        }
        if post2.variable.is_some() {
            if pre2.variable.is_none() {
                return Err(PathResolutionError::ScopeStackUnsatisfied);
            }
            let mut scopes = scopes_take_prefix(&post1.scopes, bl - cl);
            let mut tail = clone_handles(&post2.scopes);
            scopes.append(&mut tail);
            let new_post = PartialScopeStack { scopes, variable: post1.variable };
            Ok((pre1.clone(), new_post))
        } else {
            if pre2.variable.is_none() {
                return Err(PathResolutionError::ScopeStackUnsatisfied);
            }
            let new_post = PartialScopeStack {
                scopes: clone_handles(&post2.scopes),
                variable: None,
            };
            Ok((pre1.clone(), new_post))
        }
    } else {
        if !scopes_suffix_matches(&pre2.scopes, &post1.scopes) {
            return Err(PathResolutionError::ScopeStackUnsatisfied);
        }
        if post1.variable.is_some() {
            let mut scopes = scopes_take_prefix(&pre2.scopes, cl - bl);
            let mut tail = clone_handles(&pre1.scopes);
            scopes.append(&mut tail);
            let new_pre = PartialScopeStack { scopes, variable: pre2.variable };
            let new_post = PartialScopeStack {
                scopes: clone_handles(&post2.scopes),
                variable: post2.variable,
            };
            Ok((new_pre, new_post))
        } else if cl > bl {
            Err(PathResolutionError::ScopeStackUnsatisfied)
        } else {
            let new_post = PartialScopeStack {
                scopes: clone_handles(&post2.scopes),
                variable: None,
            };
            proof {
                assert(pre2@.scopes.take(cl - bl) =~= Seq::<NodeHandle>::empty());
            }
            Ok((pre1.clone(), new_post))
        }
    }
}

/// Symbol-stack unification keeps every attached scope list bounded: the
/// unified conditions are built from pieces of the four input conditions.
proof fn lemma_unify_sym_bounded(
    g: StackGraph,
    pre1: SymbolStackView,
    post1: SymbolStackView,
    pre2: SymbolStackView,
    post2: SymbolStackView,
)
    requires
        spec_sym_stack_bounded(g, pre1),
        spec_sym_stack_bounded(g, post1),
        spec_sym_stack_bounded(g, pre2),
        spec_sym_stack_bounded(g, post2),
        spec_unify_symbol_stacks(pre1, post1, pre2, post2) is Ok,
    ensures
        spec_sym_stack_bounded(g, spec_unify_symbol_stacks(pre1, post1, pre2, post2)->Ok_0.0),
        spec_sym_stack_bounded(g, spec_unify_symbol_stacks(pre1, post1, pre2, post2)->Ok_0.1),
{
    let r = spec_unify_symbol_stacks(pre1, post1, pre2, post2)->Ok_0;
    let b = post1.symbols;
    let c = pre2.symbols;
    assert forall|i: int, j: int|
        0 <= i < r.0.symbols.len() && (#[trigger] r.0.symbols[i]).scopes is Some && 0 <= j
            < r.0.symbols[i].scopes->Some_0.len() implies (#[trigger] r.0.symbols[i].scopes->Some_0[
        j
    ]).index < g.nodes@.len() by {
        if b.len() <= c.len() && post1.variable is Some {
            let rest = c.take(c.len() - b.len());
            if i < rest.len() {
                assert(r.0.symbols[i] == c[i]);
            } else {
                assert(r.0.symbols[i] == pre1.symbols[i - rest.len()]);
            }
        } else {
            assert(r.0.symbols[i] == pre1.symbols[i]);
        }
    }
    assert forall|i: int, j: int|
        0 <= i < r.1.symbols.len() && (#[trigger] r.1.symbols[i]).scopes is Some && 0 <= j
            < r.1.symbols[i].scopes->Some_0.len() implies (#[trigger] r.1.symbols[i].scopes->Some_0[
        j
    ]).index < g.nodes@.len() by {
        if b.len() > c.len() && post2.variable is Some {
            let rest = b.take(b.len() - c.len());
            if i < rest.len() {
                assert(r.1.symbols[i] == b[i]);
            } else {
                assert(r.1.symbols[i] == post2.symbols[i - rest.len()]);
            }
        } else {
            assert(r.1.symbols[i] == post2.symbols[i]);
        }
    }
}

/// Scope-stack unification keeps every scope handle bounded.
proof fn lemma_unify_scope_bounded(
    g: StackGraph,
    pre1: ScopeStackView,
    post1: ScopeStackView,
    pre2: ScopeStackView,
    post2: ScopeStackView,
)
    requires
        spec_scope_stack_bounded(g, pre1),
        spec_scope_stack_bounded(g, post1),
        spec_scope_stack_bounded(g, pre2),
        spec_scope_stack_bounded(g, post2),
        spec_unify_scope_stacks(pre1, post1, pre2, post2) is Ok,
    ensures
        spec_scope_stack_bounded(g, spec_unify_scope_stacks(pre1, post1, pre2, post2)->Ok_0.0),
        spec_scope_stack_bounded(g, spec_unify_scope_stacks(pre1, post1, pre2, post2)->Ok_0.1),
{
    let r = spec_unify_scope_stacks(pre1, post1, pre2, post2)->Ok_0;
    let b = post1.scopes;
    let c = pre2.scopes;
    assert forall|i: int| 0 <= i < r.0.scopes.len() implies (#[trigger] r.0.scopes[i]).index
        < g.nodes@.len() by {
        if b.len() <= c.len() && post1.variable is Some {
            let rest = c.take(c.len() - b.len());
            if i < rest.len() {
                assert(r.0.scopes[i] == c[i]);
            } else {
                assert(r.0.scopes[i] == pre1.scopes[i - rest.len()]);
            }
        } else {
            assert(r.0.scopes[i] == pre1.scopes[i]);
        }
    }
    assert forall|i: int| 0 <= i < r.1.scopes.len() implies (#[trigger] r.1.scopes[i]).index
        < g.nodes@.len() by {
        if b.len() > c.len() && post2.variable is Some {
            let rest = b.take(b.len() - c.len());
            if i < rest.len() {
                assert(r.1.scopes[i] == b[i]);
            } else {
                assert(r.1.scopes[i] == post2.scopes[i - rest.len()]);
            }
        } else {
            assert(r.1.scopes[i] == post2.scopes[i]);
        }
    }
}

/// Composition preserves well-formedness: the composed path's endpoints
/// resolve, its variable discipline holds, its edge list is connected
/// through the shared junction node, and its stacks stay bounded.
pub proof fn lemma_compose_wf(g: StackGraph, p1: PartialPathView, p2: PartialPathView)
    requires
        spec_path_wf(g, p1),
        spec_path_wf(g, p2),
        spec_compose(p1, p2) is Ok,
    ensures
        spec_path_wf(g, spec_compose(p1, p2)->Ok_0),
{
    let q = spec_compose(p1, p2)->Ok_0;
    lemma_unify_sym_bounded(g, p1.sym_pre, p1.sym_post, p2.sym_pre, p2.sym_post);
    lemma_unify_scope_bounded(g, p1.scope_pre, p1.scope_post, p2.scope_pre, p2.scope_post);
    let e = q.edges;
    assert forall|i: int| 0 <= i < e.len() - 1 implies (#[trigger] e[i]).sink == e[i + 1].source by {
        if i < p1.edges.len() - 1 {
            assert(e[i] == p1.edges[i]);
            assert(e[i + 1] == p1.edges[i + 1]);
        } else if i == p1.edges.len() - 1 {
            assert(e[i] == p1.edges[i]);
            assert(e[i + 1] == p2.edges[0]);
            assert(p1.edges[i].sink == p1.end_node);
            assert(p2.edges[0].source == p2.start_node);
        } else {
            assert(e[i] == p2.edges[i - p1.edges.len()]);
            assert(e[i + 1] == p2.edges[i + 1 - p1.edges.len()]);
        }
    }
    assert forall|i: int|
        0 <= i < e.len() implies (#[trigger] e[i]).source.index < g.nodes@.len() && e[i].sink.index
        < g.nodes@.len() by {
        if i < p1.edges.len() {
            assert(e[i] == p1.edges[i]);
        } else {
            assert(e[i] == p2.edges[i - p1.edges.len()]);
        }
    }
    if e.len() > 0 {
        if p1.edges.len() > 0 {
            assert(e[0] == p1.edges[0]);
        } else {
            assert(e[0] == p2.edges[0]);
        }
        if p2.edges.len() > 0 {
            assert(e[e.len() - 1] == p2.edges[p2.edges.len() - 1]);
        } else {
            assert(e[e.len() - 1] == p1.edges[p1.edges.len() - 1]);
        }
    }
}

/// Composition identity: for any partial path `p` obeying the variable
/// discipline, composing the identity partial path at `p`'s start node in
/// front of `p` yields `p` itself, unchanged.
pub proof fn lemma_compose_identity(p: PartialPathView)
    requires
        spec_variables_wf(p),
    ensures
        spec_compose(spec_from_node(p.start_node), p) == Ok::<PartialPathView, PathResolutionError>(
            p,
        ),
{
    let id = spec_from_node(p.start_node);
    assert(p.sym_pre.symbols.skip(p.sym_pre.symbols.len() - 0) =~= Seq::<
        ScopedSymbolView,
    >::empty());
    assert(id.sym_post.symbols =~= Seq::<ScopedSymbolView>::empty());
    let sym = spec_unify_symbol_stacks(id.sym_pre, id.sym_post, p.sym_pre, p.sym_post)->Ok_0;
    assert(sym.0.symbols =~= p.sym_pre.symbols) by {
        assert(p.sym_pre.symbols.take(p.sym_pre.symbols.len() - 0) =~= p.sym_pre.symbols);
    }
    assert(sym.0 =~= p.sym_pre);
    assert(sym.1 =~= p.sym_post);
    assert(p.scope_pre.scopes.skip(p.scope_pre.scopes.len() - 0) =~= Seq::<NodeHandle>::empty());
    assert(id.scope_post.scopes =~= Seq::<NodeHandle>::empty());
    let sc = spec_unify_scope_stacks(id.scope_pre, id.scope_post, p.scope_pre, p.scope_post)->Ok_0;
    assert(sc.0.scopes =~= p.scope_pre.scopes) by {
        assert(p.scope_pre.scopes.take(p.scope_pre.scopes.len() - 0) =~= p.scope_pre.scopes);
    }
    assert(sc.0 =~= p.scope_pre);
    assert(sc.1 =~= p.scope_post);
    let q = spec_compose(id, p)->Ok_0;
    assert(q.edges =~= p.edges);
    assert(q =~~= p);
}

impl PartialPath {
    /// Appends this partial path to `path`, replacing `path` with the
    /// composition `path` then `self`. On error, `path` is unchanged and
    /// the candidate extension can be dropped.
    pub fn append_to(&self, graph: &StackGraph, path: &mut PartialPath) -> (r: Result<
        (),
        PathResolutionError,
    >)
        requires
            graph.wf(),
            spec_path_wf(*graph, old(path)@),
            spec_path_wf(*graph, self@),
        ensures
            r is Ok ==> Ok::<PartialPathView, PathResolutionError>(final(path)@) == spec_compose(
                old(path)@,
                self@,
            ),
            r is Ok ==> spec_path_wf(*graph, final(path)@),
            r is Err ==> *final(path) == *old(path) && Err::<PartialPathView, PathResolutionError>(
                r->Err_0,
            ) == spec_compose(old(path)@, self@),
    {
        if path.end_node != self.start_node {
            return Err(PathResolutionError::IncorrectSourceNode);
        }
        let sym = match unify_symbol_stacks(
            &path.symbol_stack_precondition,
            &path.symbol_stack_postcondition,
            &self.symbol_stack_precondition,
            &self.symbol_stack_postcondition,
        ) {
            Ok(s) => s,
            Err(e) => {
                return Err(e);
            },
        };
        let sc = match unify_scope_stacks(
            &path.scope_stack_precondition,
            &path.scope_stack_postcondition,
            &self.scope_stack_precondition,
            &self.scope_stack_postcondition,
        ) {
            Ok(s) => s,
            Err(e) => {
                return Err(e);
            },
        };
        let ghost before = path@;
        let (new_sym_pre, new_sym_post) = sym;
        let (new_scope_pre, new_scope_post) = sc;
        path.symbol_stack_precondition = new_sym_pre;
        path.symbol_stack_postcondition = new_sym_post;
        path.scope_stack_precondition = new_scope_pre;
        path.scope_stack_postcondition = new_scope_post;
        path.end_node = self.end_node;
        let mut more = clone_edges(&self.edges);
        path.edges.append(&mut more);
        proof {
            assert(path@ =~~= spec_compose(before, self@)->Ok_0);
            lemma_compose_wf(*graph, before, self@);
        }
        Ok(())
    }
}

/// One step extends the symbol postcondition by at most one element, and
/// only a step onto a push node extends it: a graph without push cycles
/// cannot grow the symbol stack unboundedly.
pub proof fn lemma_append_symbol_growth(g: StackGraph, p: PartialPathView, edge: Edge)
    requires
        spec_append(g, p, edge) is Ok,
    ensures
        ({
            let q = spec_append(g, p, edge)->Ok_0;
            &&& q.sym_post.symbols.len() <= p.sym_post.symbols.len() + 1
            &&& q.sym_post.symbols.len() == p.sym_post.symbols.len() + 1 ==> (g.nodes@[
                edge.sink.index as int
            ].kind is PushSymbol || g.nodes@[edge.sink.index as int].kind is PushScopedSymbol)
        }),
{
}

/// One composition grows the symbol postcondition by at most the
/// appended path's own postcondition length: the stored-path analogue of
/// the single-step growth law.
pub proof fn lemma_compose_symbol_growth(p1: PartialPathView, p2: PartialPathView)
    requires
        spec_compose(p1, p2) is Ok,
    ensures
        spec_compose(p1, p2)->Ok_0.sym_post.symbols.len() <= p1.sym_post.symbols.len()
            + p2.sym_post.symbols.len(),
{
}

/// Symbol-stack conditions are interchangeable when their concrete parts
/// are equal and both have, or both lack, a trailing variable. Variable
/// numbers are path-local, so they are compared only for presence.
pub open spec fn spec_sym_stack_matches(a: SymbolStackView, b: SymbolStackView) -> bool {
    a.symbols == b.symbols && (a.variable is Some) == (b.variable is Some)
}

/// The scope-stack analogue of [`spec_sym_stack_matches`].
pub open spec fn spec_scope_stack_matches(a: ScopeStackView, b: ScopeStackView) -> bool {
    a.scopes == b.scopes && (a.variable is Some) == (b.variable is Some)
}

/// Equality of partial paths up to variable renaming: same endpoints, the
/// same four stack conditions, and the same edge list.
pub open spec fn spec_path_equals(a: PartialPathView, b: PartialPathView) -> bool {
    &&& a.start_node == b.start_node
    &&& a.end_node == b.end_node
    &&& spec_sym_stack_matches(a.sym_pre, b.sym_pre)
    &&& spec_scope_stack_matches(a.scope_pre, b.scope_pre)
    &&& spec_sym_stack_matches(a.sym_post, b.sym_post)
    &&& spec_scope_stack_matches(a.scope_post, b.scope_post)
    &&& a.edges == b.edges
}

/// The precedence offered by an edge list at position `i`; a missing edge
/// ranks below every precedence.
pub open spec fn spec_prec_at(s: Seq<Edge>, i: int) -> int {
    if 0 <= i < s.len() {
        s[i].precedence as int
    } else {
        i32::MIN - 1
    }
}

/// Path `p` shadows path `q` when both leave the same start node under
/// interchangeable preconditions — so they answer the same lookup, even
/// if they reach different resolutions — and `p` offers strictly higher
/// precedence at the first edge where the two paths differ. Because the
/// edge lists agree before that point, comparing the single differing
/// position is the same as comparing cumulative precedence there.
pub open spec fn spec_shadows(p: PartialPathView, q: PartialPathView) -> bool {
    &&& p.start_node == q.start_node
    &&& spec_sym_stack_matches(p.sym_pre, q.sym_pre)
    &&& spec_scope_stack_matches(p.scope_pre, q.scope_pre)
    &&& exists|i: int|
        0 <= i && i <= p.edges.len() && i <= q.edges.len() && (forall|j: int|
            0 <= j < i ==> p.edges[j] == q.edges[j]) && #[trigger] spec_prec_at(p.edges, i)
            > spec_prec_at(q.edges, i)
}

/// Shadowing is asymmetric: two paths differ first at one position, and
/// only one of them can offer the strictly higher precedence there.
pub proof fn lemma_shadows_asymmetric(p: PartialPathView, q: PartialPathView)
    requires
        spec_shadows(p, q),
    ensures
        !spec_shadows(q, p),
{
    let i = choose|i: int|
        0 <= i && i <= p.edges.len() && i <= q.edges.len() && (forall|j: int|
            0 <= j < i ==> p.edges[j] == q.edges[j]) && #[trigger] spec_prec_at(p.edges, i)
            > spec_prec_at(q.edges, i);
    if spec_shadows(q, p) {
        let k = choose|k: int|
            0 <= k && k <= q.edges.len() && k <= p.edges.len() && (forall|j: int|
                0 <= j < k ==> q.edges[j] == p.edges[j]) && #[trigger] spec_prec_at(q.edges, k)
                > spec_prec_at(p.edges, k);
        if k < i {
            assert(p.edges[k] == q.edges[k]);
        } else if i < k {
            assert(q.edges[i] == p.edges[i]);
        }
    }
}

/// Equal paths shadow nothing they equal: equal edge lists offer the same
/// precedence at every position.
pub proof fn lemma_equals_no_shadows(p: PartialPathView, q: PartialPathView)
    requires
        spec_path_equals(p, q),
    ensures
        !spec_shadows(p, q),
        !spec_shadows(q, p),
{
    if spec_shadows(p, q) {
        let i = choose|i: int|
            0 <= i && i <= p.edges.len() && i <= q.edges.len() && (forall|j: int|
                0 <= j < i ==> p.edges[j] == q.edges[j]) && #[trigger] spec_prec_at(p.edges, i)
                > spec_prec_at(q.edges, i);
        assert(spec_prec_at(p.edges, i) == spec_prec_at(q.edges, i));
    }
    if spec_shadows(q, p) {
        let i = choose|i: int|
            0 <= i && i <= q.edges.len() && i <= p.edges.len() && (forall|j: int|
                0 <= j < i ==> q.edges[j] == p.edges[j]) && #[trigger] spec_prec_at(q.edges, i)
                > spec_prec_at(p.edges, i);
        assert(spec_prec_at(q.edges, i) == spec_prec_at(p.edges, i));
    }
}

/// How a cycle (a partial path from a node back to itself) behaves under
/// self-composition.
#[derive(Clone, Copy, Debug, PartialEq, Eq, Structural)]
pub enum Cyclicity {
    /// Pre- and postconditions are interchangeable: repeating the cycle
    /// changes nothing.
    Free,
    /// Each precondition is a bottom part of its postcondition: every turn
    /// of the cycle pushes more onto the stacks.
    StrengthensPostcondition,
    /// Any other self-loop.
    LoopsAtEnd,
}

/// `a` is a bottom part of `b` (with matching variable presence): `b` is
/// `a` with extra elements pushed on top.
pub open spec fn spec_sym_stack_grows(a: SymbolStackView, b: SymbolStackView) -> bool {
    a.symbols.len() <= b.symbols.len() && b.symbols.take(a.symbols.len() as int) == a.symbols && (
    a.variable is Some) == (b.variable is Some)
}

/// The scope-stack analogue of [`spec_sym_stack_grows`].
pub open spec fn spec_scope_stack_grows(a: ScopeStackView, b: ScopeStackView) -> bool {
    a.scopes.len() <= b.scopes.len() && b.scopes.take(a.scopes.len() as int) == a.scopes && (
    a.variable is Some) == (b.variable is Some)
}

/// The cyclicity classification of a partial path: `None` unless the path
/// is a non-empty cycle; otherwise the behaviour of its self-composition.
pub open spec fn spec_is_cyclic(p: PartialPathView) -> Option<Cyclicity> {
    if p.start_node != p.end_node || p.edges.len() == 0 {
        None
    } else if spec_sym_stack_matches(p.sym_pre, p.sym_post) && spec_scope_stack_matches(
        p.scope_pre,
        p.scope_post,
    ) {
        Some(Cyclicity::Free)
    } else if spec_sym_stack_grows(p.sym_pre, p.sym_post) && spec_scope_stack_grows(
        p.scope_pre,
        p.scope_post,
    ) {
        Some(Cyclicity::StrengthensPostcondition)
    } else {
        Some(Cyclicity::LoopsAtEnd)
    }
}

/// Compares the bottom `k` elements of two symbol-stack vectors.
fn symbols_prefix_eq(a: &Vec<PartialScopedSymbol>, b: &Vec<PartialScopedSymbol>, k: usize) -> (r:
    bool)
    requires
        k <= a@.len(),
        k <= b@.len(),
    ensures
        r == (a@.map_values(|s: PartialScopedSymbol| s@).take(k as int) == b@.map_values(
            |s: PartialScopedSymbol| s@,
        ).take(k as int)),
{
    let ghost av = a@.map_values(|s: PartialScopedSymbol| s@);
    let ghost bv = b@.map_values(|s: PartialScopedSymbol| s@);
    for i in 0..k
        invariant
            k <= a@.len(),
            k <= b@.len(),
            av == a@.map_values(|s: PartialScopedSymbol| s@),
            bv == b@.map_values(|s: PartialScopedSymbol| s@),
            forall|j: int| 0 <= j < i ==> av[j] == bv[j],
    {
        if !a[i].equals(&b[i]) {
            proof {
                assert(av.take(k as int)[i as int] != bv.take(k as int)[i as int]);
            }
            return false;
        }
    }
    proof {
        assert(av.take(k as int) =~= bv.take(k as int));
    }
    true
}

/// Compares the bottom `k` elements of two scope-stack vectors.
fn scopes_prefix_eq(a: &Vec<NodeHandle>, b: &Vec<NodeHandle>, k: usize) -> (r: bool)
    requires
        k <= a@.len(),
        k <= b@.len(),
    ensures
        r == (a@.take(k as int) == b@.take(k as int)),
{
    for i in 0..k
        invariant
            k <= a@.len(),
            k <= b@.len(),
            forall|j: int| 0 <= j < i ==> a@[j] == b@[j],
    {
        if a[i] != b[i] {
            proof {
                assert(a@.take(k as int)[i as int] != b@.take(k as int)[i as int]);
            }
            return false;
        }
    }
    proof {
        assert(a@.take(k as int) =~= b@.take(k as int));
    }
    true
}

/// Compares two symbol-stack conditions up to variable renaming.
fn sym_stacks_match(a: &PartialSymbolStack, b: &PartialSymbolStack) -> (r: bool)
    ensures
        r == spec_sym_stack_matches(a@, b@),
{
    if a.symbols.len() != b.symbols.len() {
        proof {
            assert(a@.symbols.len() != b@.symbols.len());
        }
        return false;
    }
    if a.variable.is_some() != b.variable.is_some() {
        return false;
    }
    let n = a.symbols.len();
    let r = symbols_prefix_eq(&a.symbols, &b.symbols, n);
    proof {
        assert(a@.symbols.take(n as int) =~= a@.symbols);
        assert(b@.symbols.take(n as int) =~= b@.symbols);
    }
    r
}

/// Compares two scope-stack conditions up to variable renaming.
fn scope_stacks_match(a: &PartialScopeStack, b: &PartialScopeStack) -> (r: bool)
    ensures
        r == spec_scope_stack_matches(a@, b@),
{
    if a.scopes.len() != b.scopes.len() {
        proof {
            assert(a@.scopes.len() != b@.scopes.len());
        }
        return false;
    }
    if a.variable.is_some() != b.variable.is_some() {
        return false;
    }
    let n = a.scopes.len();
    let r = scopes_prefix_eq(&a.scopes, &b.scopes, n);
    proof {
        assert(a@.scopes.take(n as int) =~= a@.scopes);
        assert(b@.scopes.take(n as int) =~= b@.scopes);
    }
    r
}

impl PartialPath {
    /// Equality up to variable renaming; see [`spec_path_equals`].
    pub fn equals(&self, other: &PartialPath) -> (r: bool)
        ensures
            r == spec_path_equals(self@, other@),
    {
        if self.start_node != other.start_node || self.end_node != other.end_node {
            return false;
        }
        if !sym_stacks_match(&self.symbol_stack_precondition, &other.symbol_stack_precondition) {
            return false;
        }
        if !scope_stacks_match(&self.scope_stack_precondition, &other.scope_stack_precondition) {
            return false;
        }
        if !sym_stacks_match(&self.symbol_stack_postcondition, &other.symbol_stack_postcondition) {
            return false;
        }
        if !scope_stacks_match(&self.scope_stack_postcondition, &other.scope_stack_postcondition) {
            return false;
        }
        if self.edges.len() != other.edges.len() {
            proof {
                assert(self@.edges.len() != other@.edges.len());
            }
            return false;
        }
        let n = self.edges.len();
        for i in 0..n
            invariant
                n == self@.edges.len(),
                n == other@.edges.len(),
                forall|j: int| 0 <= j < i ==> self@.edges[j] == other@.edges[j],
        {
            if self.edges[i] != other.edges[i] {
                return false;
            }
        }
        proof {
            assert(self@.edges =~= other@.edges);
        }
        true
    }

    /// Whether this path shadows `other`; see [`spec_shadows`].
    pub fn shadows(&self, other: &PartialPath) -> (r: bool)
        ensures
            r == spec_shadows(self@, other@),
    {
        if self.start_node != other.start_node {
            return false;
        }
        if !sym_stacks_match(&self.symbol_stack_precondition, &other.symbol_stack_precondition) {
            return false;
        }
        if !scope_stacks_match(&self.scope_stack_precondition, &other.scope_stack_precondition) {
            return false;
        }
        let pn = self.edges.len();
        let qn = other.edges.len();
        let mut i: usize = 0;
        while i < pn && i < qn && self.edges[i] == other.edges[i]
            invariant
                pn == self@.edges.len(),
                qn == other@.edges.len(),
                i <= pn,
                i <= qn,
                forall|j: int| 0 <= j < i ==> self@.edges[j] == other@.edges[j],
            decreases pn - i,
        {
            i += 1;
        }
        // i is the first position where the edge lists differ (or where one ends)
        let p_prec_higher: bool = if i < pn && i < qn {
            self.edges[i].precedence > other.edges[i].precedence
        } else if i < pn {
            true
        } else {
            false
        };
        proof {
            if p_prec_higher {
                assert(spec_prec_at(self@.edges, i as int) > spec_prec_at(other@.edges, i as int));
            } else {
                assert(spec_prec_at(self@.edges, i as int) <= spec_prec_at(other@.edges, i as int));
                assert forall|k: int|
                    0 <= k && k <= self@.edges.len() && k <= other@.edges.len() && (forall|j: int|
                        0 <= j < k ==> self@.edges[j] == other@.edges[j]) implies #[trigger] spec_prec_at(
                    self@.edges,
                    k,
                ) <= spec_prec_at(other@.edges, k) by {
                    if k < i {
                        assert(self@.edges[k] == other@.edges[k]);
                    } else if k > i {
                        assert(self@.edges[i as int] == other@.edges[i as int]);
                    }
                }
            }
        }
        p_prec_higher
    }

    /// Classifies this path's self-composition behaviour; see
    /// [`spec_is_cyclic`]. Returns `None` unless the path is a non-empty
    /// cycle.
    pub fn is_cyclic(&self) -> (r: Option<Cyclicity>)
        ensures
            r == spec_is_cyclic(self@),
    {
        if self.start_node != self.end_node || self.edges.len() == 0 {
            return None;
        }
        if sym_stacks_match(&self.symbol_stack_precondition, &self.symbol_stack_postcondition)
            && scope_stacks_match(
            &self.scope_stack_precondition,
            &self.scope_stack_postcondition,
        ) {
            return Some(Cyclicity::Free);
        }
        let sym_grows: bool = self.symbol_stack_precondition.symbols.len()
            <= self.symbol_stack_postcondition.symbols.len() && symbols_prefix_eq(
            &self.symbol_stack_postcondition.symbols,
            &self.symbol_stack_precondition.symbols,
            self.symbol_stack_precondition.symbols.len(),
        ) && self.symbol_stack_precondition.variable.is_some()
            == self.symbol_stack_postcondition.variable.is_some();
        let scope_grows: bool = self.scope_stack_precondition.scopes.len()
            <= self.scope_stack_postcondition.scopes.len() && scopes_prefix_eq(
            &self.scope_stack_postcondition.scopes,
            &self.scope_stack_precondition.scopes,
            self.scope_stack_precondition.scopes.len(),
        ) && self.scope_stack_precondition.variable.is_some()
            == self.scope_stack_postcondition.variable.is_some();
        if sym_grows && scope_grows {
            proof {
                let pre = self@.sym_pre;
                let post = self@.sym_post;
                assert(pre.symbols.take(pre.symbols.len() as int) =~= pre.symbols);
                let spre = self@.scope_pre;
                assert(spre.scopes.take(spre.scopes.len() as int) =~= spre.scopes);
            }
            Some(Cyclicity::StrengthensPostcondition)
        } else {
            proof {
                let pre = self@.sym_pre;
                assert(pre.symbols.take(pre.symbols.len() as int) =~= pre.symbols);
                let spre = self@.scope_pre;
                assert(spre.scopes.take(spre.scopes.len() as int) =~= spre.scopes);
            }
            Some(Cyclicity::LoopsAtEnd)
        }
    }
}

} // verus!
