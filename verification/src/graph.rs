//! The stack graph model: nodes, edges with precedence, files, symbols, and
//! source spans.
//!
//! Symbols and file names are interned: adding an equal string twice yields
//! the same handle, so equality of interned entities is handle equality.
//! Nodes carry a stable identity `(file or global, local id)` and a kind that
//! determines their effect on the symbol and scope stacks during traversal.

use vstd::prelude::*;

verus! {

/// A handle to an interned symbol (a program identifier).
#[derive(Clone, Copy, Debug, PartialEq, Eq, Hash, Structural)]
pub struct SymbolHandle {
    pub index: usize,
}

/// A handle to an interned file.
#[derive(Clone, Copy, Debug, PartialEq, Eq, Hash, Structural)]
pub struct FileHandle {
    pub index: usize,
}

/// A handle to a node of a [`StackGraph`].
#[derive(Clone, Copy, Debug, PartialEq, Eq, Hash, Structural)]
pub struct NodeHandle {
    pub index: usize,
}

/// The stable identity of a node: the file it belongs to (`None` only for
/// the two global singleton nodes) and a caller-supplied local id.
#[derive(Clone, Copy, Debug)]
pub struct NodeID {
    pub file: Option<FileHandle>,
    pub local_id: u32,
}

impl NodeID {
    /// The identity of the global root node.
    pub fn root() -> (r: NodeID)
        ensures
            r == (NodeID { file: None, local_id: 1u32 }),
    {
        NodeID { file: None, local_id: 1 }
    }

    /// The identity of the global jump-to-scope node.
    pub fn jump_to() -> (r: NodeID)
        ensures
            r == (NodeID { file: None, local_id: 2u32 }),
    {
        NodeID { file: None, local_id: 2 }
    }

    /// A local identity within `file`.
    pub fn new_in_file(file: FileHandle, local_id: u32) -> (r: NodeID)
        ensures
            r == (NodeID { file: Some(file), local_id }),
    {
        NodeID { file: Some(file), local_id }
    }

    pub fn equals(&self, other: &NodeID) -> (r: bool)
        ensures
            r == (*self == *other),
    {
        self.local_id == other.local_id && match (self.file, other.file) {
            (Some(f), Some(g)) => f == g,
            (None, None) => true,
            _ => false,
        }
    }
}

/// The kind of a node, which fixes its effect on the two stacks when a path
/// steps onto it.
#[derive(Clone, Copy, Debug)]
pub enum NodeKind {
    /// The global cross-file anchor; every cross-file traversal passes
    /// through it. No stack effect.
    Root,
    /// Pops a scope from the scope stack and teleports the path to it.
    JumpToScope,
    /// A passive scope; may be marked exported, which makes it addressable
    /// by attached-scope lists.
    Scope { is_exported: bool },
    /// Pushes `symbol` onto the symbol stack.
    PushSymbol { symbol: SymbolHandle, is_reference: bool },
    /// Pushes `symbol` with an attached scope list rooted at the exported
    /// scope `scope`.
    PushScopedSymbol { symbol: SymbolHandle, scope: NodeHandle, is_reference: bool },
    /// Matches and removes the top of the symbol stack.
    PopSymbol { symbol: SymbolHandle, is_definition: bool },
    /// As pop-symbol, but the popped symbol must carry an attached scope
    /// list, which is transferred onto the scope stack.
    PopScopedSymbol { symbol: SymbolHandle, is_definition: bool },
    /// A plain transit node with no stack effect.
    Internal,
}

/// A node of a stack graph: its identity plus its kind.
#[derive(Clone, Copy, Debug)]
pub struct Node {
    pub id: NodeID,
    pub kind: NodeKind,
}

impl Node {
    /// True for pop-symbol and pop-scoped-symbol nodes flagged as
    /// definitions.
    pub open spec fn spec_is_definition(&self) -> bool {
        match self.kind {
            NodeKind::PopSymbol { is_definition, .. } => is_definition,
            NodeKind::PopScopedSymbol { is_definition, .. } => is_definition,
            _ => false,
        }
    }

    pub fn is_definition(&self) -> (r: bool)
        ensures
            r == self.spec_is_definition(),
    {
        match self.kind {
            NodeKind::PopSymbol { is_definition, .. } => is_definition,
            NodeKind::PopScopedSymbol { is_definition, .. } => is_definition,
            _ => false,
        }
    }

    /// True for push-symbol and push-scoped-symbol nodes flagged as
    /// references.
    pub open spec fn spec_is_reference(&self) -> bool {
        match self.kind {
            NodeKind::PushSymbol { is_reference, .. } => is_reference,
            NodeKind::PushScopedSymbol { is_reference, .. } => is_reference,
            _ => false,
        }
    }

    pub fn is_reference(&self) -> (r: bool)
        ensures
            r == self.spec_is_reference(),
    {
        match self.kind {
            NodeKind::PushSymbol { is_reference, .. } => is_reference,
            NodeKind::PushScopedSymbol { is_reference, .. } => is_reference,
            _ => false,
        }
    }

    pub open spec fn spec_is_exported_scope(&self) -> bool {
        match self.kind {
            NodeKind::Scope { is_exported } => is_exported,
            _ => false,
        }
    }

    pub fn is_exported_scope(&self) -> (r: bool)
        ensures
            r == self.spec_is_exported_scope(),
    {
        match self.kind {
            NodeKind::Scope { is_exported } => is_exported,
            _ => false,
        }
    }

    /// The symbol carried by a push or pop node, if any.
    pub open spec fn spec_symbol(&self) -> Option<SymbolHandle> {
        match self.kind {
            NodeKind::PushSymbol { symbol, .. } => Some(symbol),
            NodeKind::PushScopedSymbol { symbol, .. } => Some(symbol),
            NodeKind::PopSymbol { symbol, .. } => Some(symbol),
            NodeKind::PopScopedSymbol { symbol, .. } => Some(symbol),
            _ => None,
        }
    }

    pub fn symbol(&self) -> (r: Option<SymbolHandle>)
        ensures
            r == self.spec_symbol(),
    {
        match self.kind {
            NodeKind::PushSymbol { symbol, .. } => Some(symbol),
            NodeKind::PushScopedSymbol { symbol, .. } => Some(symbol),
            NodeKind::PopSymbol { symbol, .. } => Some(symbol),
            NodeKind::PopScopedSymbol { symbol, .. } => Some(symbol),
            _ => None,
        }
    }

    /// The file a node belongs to; `None` only for the root and
    /// jump-to-scope singletons.
    pub fn file(&self) -> (r: Option<FileHandle>)
        ensures
            r == self.id.file,
    {
        self.id.file
    }
}

/// A directed edge. Precedence breaks ties between alternative resolutions
/// leaving the same node: higher precedence shadows lower.
#[derive(Clone, Copy, Debug, PartialEq, Eq, Structural)]
pub struct Edge {
    pub source: NodeHandle,
    pub sink: NodeHandle,
    pub precedence: i32,
}

/// A position in a source file: a zero-based line, with the column given
/// both as a UTF-8 byte offset and as a grapheme offset.
#[derive(Clone, Copy, Debug, PartialEq, Eq, Structural)]
pub struct Position {
    pub line: usize,
    pub column_utf8: usize,
    pub column_grapheme: usize,
}

impl Position {
    /// Orders positions by line, then by grapheme column.
    pub open spec fn spec_le(self, other: Position) -> bool {
        self.line < other.line || (self.line == other.line && self.column_grapheme
            <= other.column_grapheme)
    }

    pub fn le(&self, other: &Position) -> (r: bool)
        ensures
            r == self.spec_le(*other),
    {
        self.line < other.line || (self.line == other.line && self.column_grapheme
            <= other.column_grapheme)
    }
}

/// A source span: a half-open range of positions.
#[derive(Clone, Copy, Debug, PartialEq, Eq, Structural)]
pub struct Span {
    pub start: Position,
    pub end: Position,
}

impl Span {
    /// True when `position` lies within the span: at or after the start and
    /// strictly before the end.
    pub open spec fn spec_contains(self, position: Position) -> bool {
        self.start.spec_le(position) && !self.end.spec_le(position)
    }

    pub fn contains(&self, position: &Position) -> (r: bool)
        ensures
            r == self.spec_contains(*position),
    {
        self.start.le(position) && !self.end.le(position)
    }
}

/// Source information attached to a node: the span of source text it stands
/// for.
#[derive(Clone, Copy, Debug, PartialEq, Eq, Structural)]
pub struct SourceInfo {
    pub span: Span,
}

/// True when `new_out` is `old_out` with one empty outgoing-edge list
/// appended.
pub open spec fn spec_pushed_empty_out(old_out: Seq<Vec<Edge>>, new_out: Seq<Vec<Edge>>) -> bool {
    &&& new_out.len() == old_out.len() + 1
    &&& forall|i: int| 0 <= i < old_out.len() ==> new_out[i] == old_out[i]
    &&& new_out[old_out.len() as int]@ == Seq::<Edge>::empty()
}

pub open spec fn spec_max_i32(a: i32, b: i32) -> i32 {
    if a >= b {
        a
    } else {
        b
    }
}

/// The result of inserting an edge into an outgoing-edge list: if an edge to
/// the same sink is already present, only its precedence is raised to the
/// maximum of the two; otherwise the edge is appended.
pub open spec fn spec_add_edge(
    out: Seq<Edge>,
    source: NodeHandle,
    sink: NodeHandle,
    precedence: i32,
) -> Seq<Edge> {
    if exists|k: int| 0 <= k < out.len() && (#[trigger] out[k]).sink == sink {
        let k = choose|k: int| 0 <= k < out.len() && (#[trigger] out[k]).sink == sink;
        out.update(k, Edge { source, sink, precedence: spec_max_i32(out[k].precedence, precedence) })
    } else {
        out.push(Edge { source, sink, precedence })
    }
}

/// A stack graph: interned symbols and files, nodes, per-node outgoing
/// edges, and optional per-node source information.
pub struct StackGraph {
    pub symbols: Vec<String>,
    pub files: Vec<String>,
    pub nodes: Vec<Node>,
    pub outgoing: Vec<Vec<Edge>>,
    pub source_info: Vec<Option<SourceInfo>>,
}

impl StackGraph {
    /// The handle of the global root node, present in every graph.
    pub fn root_node() -> (r: NodeHandle)
        ensures
            r == (NodeHandle { index: 0 }),
    {
        NodeHandle { index: 0 }
    }

    /// The handle of the global jump-to-scope node, present in every graph.
    pub fn jump_to_node() -> (r: NodeHandle)
        ensures
            r == (NodeHandle { index: 1 }),
    {
        NodeHandle { index: 1 }
    }

    pub open spec fn node_in_bounds(&self, h: NodeHandle) -> bool {
        h.index < self.nodes@.len()
    }

    pub open spec fn edge_wf(&self, e: Edge) -> bool {
        e.source.index < self.nodes@.len() && e.sink.index < self.nodes@.len()
    }

    pub open spec fn node_wf(&self, n: Node) -> bool {
        &&& match n.id.file {
            Some(f) => f.index < self.files@.len(),
            None => true,
        }
        &&& match n.kind {
            NodeKind::PushSymbol { symbol, .. } => symbol.index < self.symbols@.len(),
            NodeKind::PushScopedSymbol { symbol, scope, .. } => symbol.index < self.symbols@.len()
                && scope.index < self.nodes@.len(),
            NodeKind::PopSymbol { symbol, .. } => symbol.index < self.symbols@.len(),
            NodeKind::PopScopedSymbol { symbol, .. } => symbol.index < self.symbols@.len(),
            _ => true,
        }
    }

    /// Well-formedness: the parallel vectors agree in length, the two global
    /// nodes sit at their fixed indices, every edge endpoint and every
    /// handle held by a node resolves, node identities are unique, an
    /// outgoing-edge list holds its own node as source and at most one edge
    /// per sink, and interned strings are distinct.
    pub open spec fn wf(&self) -> bool {
        &&& self.outgoing@.len() == self.nodes@.len()
        &&& self.source_info@.len() == self.nodes@.len()
        &&& self.nodes@.len() >= 2
        &&& self.nodes@[0].kind is Root
        &&& self.nodes@[0].id == (NodeID { file: None, local_id: 1u32 })
        &&& self.nodes@[1].kind is JumpToScope
        &&& self.nodes@[1].id == (NodeID { file: None, local_id: 2u32 })
        &&& forall|i: int| 0 <= i < self.nodes@.len() ==> self.node_wf(#[trigger] self.nodes@[i])
        &&& forall|i: int, j: int|
            0 <= i < self.outgoing@.len() && 0 <= j < self.outgoing@[i].len() ==> {
                &&& self.edge_wf(#[trigger] self.outgoing@[i]@[j])
                &&& self.outgoing@[i]@[j].source == (NodeHandle { index: i as usize })
            }
        &&& forall|i: int, j: int, k: int|
            0 <= i < self.outgoing@.len() && 0 <= j < k < self.outgoing@[i].len()
                ==> (#[trigger] self.outgoing@[i]@[j]).sink != (#[trigger] self.outgoing@[i]@[k]).sink
        &&& forall|i: int, j: int|
            0 <= i < j < self.nodes@.len() ==> (#[trigger] self.nodes@[i]).id != (
            #[trigger] self.nodes@[j]).id
        &&& forall|i: int, j: int|
            0 <= i < j < self.symbols@.len() ==> (#[trigger] self.symbols@[i])@ != (
            #[trigger] self.symbols@[j])@
        &&& forall|i: int, j: int|
            0 <= i < j < self.files@.len() ==> (#[trigger] self.files@[i])@ != (
            #[trigger] self.files@[j])@
    }

    /// Creates a graph containing only the root and jump-to-scope nodes.
    pub fn new() -> (r: StackGraph)
        ensures
            r.wf(),
            r.symbols@.len() == 0,
            r.files@.len() == 0,
            r.nodes@.len() == 2,
            r.outgoing@[0]@.len() == 0,
            r.outgoing@[1]@.len() == 0,
            r.source_info@[0] is None,
            r.source_info@[1] is None,
    {
        let mut nodes: Vec<Node> = Vec::new();
        nodes.push(Node { id: NodeID::root(), kind: NodeKind::Root });
        nodes.push(Node { id: NodeID::jump_to(), kind: NodeKind::JumpToScope });
        let mut outgoing: Vec<Vec<Edge>> = Vec::new();
        outgoing.push(Vec::new());
        outgoing.push(Vec::new());
        let mut source_info: Vec<Option<SourceInfo>> = Vec::new();
        source_info.push(None);
        source_info.push(None);
        StackGraph { symbols: Vec::new(), files: Vec::new(), nodes, outgoing, source_info }
    }

    /// Interns a symbol: returns the handle of an equal existing symbol, or
    /// adds the symbol and returns its new handle.
    pub fn add_symbol(&mut self, symbol: &str) -> (r: SymbolHandle)
        requires
            old(self).wf(),
        ensures
            final(self).wf(),
            r.index < final(self).symbols@.len(),
            final(self).symbols@[r.index as int]@ == symbol@,
            final(self).files == old(self).files,
            final(self).nodes == old(self).nodes,
            final(self).outgoing == old(self).outgoing,
            final(self).source_info == old(self).source_info,
            (forall|i: int|
                0 <= i < old(self).symbols@.len() ==> (#[trigger] old(self).symbols@[i])@
                    != symbol@) ==> final(self).symbols@ == old(self).symbols@.push(
                final(self).symbols@[r.index as int]),
            (exists|i: int|
                0 <= i < old(self).symbols@.len() && (#[trigger] old(self).symbols@[i])@
                    == symbol@) ==> final(self).symbols == old(self).symbols,
    {
        let owned: String = symbol.to_owned();
        let n = self.symbols.len();
        for i in 0..n
            invariant
                *self == *old(self),
                self.wf(),
                n == self.symbols@.len(),
                owned@ == symbol@,
                forall|j: int| 0 <= j < i ==> (#[trigger] self.symbols@[j])@ != symbol@,
        {
            if self.symbols[i] == owned {
                return SymbolHandle { index: i };
            }
        }
        self.symbols.push(owned);
        SymbolHandle { index: n }
    }

    /// Interns a file name: returns the handle of an equal existing file, or
    /// adds the file and returns its new handle.
    pub fn get_or_create_file(&mut self, name: &str) -> (r: FileHandle)
        requires
            old(self).wf(),
        ensures
            final(self).wf(),
            r.index < final(self).files@.len(),
            final(self).files@[r.index as int]@ == name@,
            final(self).symbols == old(self).symbols,
            final(self).nodes == old(self).nodes,
            final(self).outgoing == old(self).outgoing,
            final(self).source_info == old(self).source_info,
            (exists|i: int|
                0 <= i < old(self).files@.len() && (#[trigger] old(self).files@[i])@ == name@)
                ==> final(self).files == old(self).files,
    {
        let owned: String = name.to_owned();
        let n = self.files.len();
        for i in 0..n
            invariant
                *self == *old(self),
                self.wf(),
                n == self.files@.len(),
                owned@ == name@,
                forall|j: int| 0 <= j < i ==> (#[trigger] self.files@[j])@ != name@,
        {
            if self.files[i] == owned {
                return FileHandle { index: i };
            }
        }
        self.files.push(owned);
        FileHandle { index: n }
    }

    /// The interned string of a symbol handle.
    pub fn symbol(&self, h: SymbolHandle) -> (r: &String)
        requires
            h.index < self.symbols@.len(),
        ensures
            r == self.symbols@[h.index as int],
    {
        &self.symbols[h.index]
    }

    /// The interned name of a file handle.
    pub fn file_name(&self, h: FileHandle) -> (r: &String)
        requires
            h.index < self.files@.len(),
        ensures
            r == self.files@[h.index as int],
    {
        &self.files[h.index]
    }

    /// The node behind a handle.
    pub fn node(&self, h: NodeHandle) -> (r: &Node)
        requires
            self.node_in_bounds(h),
        ensures
            r == self.nodes@[h.index as int],
    {
        &self.nodes[h.index]
    }

    /// True when some node already carries this identity.
    pub open spec fn spec_id_bound(&self, id: NodeID) -> bool {
        exists|i: int| 0 <= i < self.nodes@.len() && (#[trigger] self.nodes@[i]).id == id
    }

    /// Adds a node, failing with `None` if its identity is already bound or
    /// if the node refers to anything outside the graph.
    fn add_node(&mut self, id: NodeID, kind: NodeKind) -> (r: Option<NodeHandle>)
        requires
            old(self).wf(),
        ensures
            final(self).wf(),
            final(self).symbols == old(self).symbols,
            final(self).files == old(self).files,
            r is None ==> *final(self) == *old(self),
            r is None <==> old(self).spec_id_bound(id) || !old(self).node_wf(
                Node { id, kind },
            ),
            r is Some ==> {
                &&& r->Some_0 == (NodeHandle { index: old(self).nodes@.len() as usize })
                &&& final(self).nodes@ == old(self).nodes@.push(Node { id, kind })
                &&& spec_pushed_empty_out(old(self).outgoing@, final(self).outgoing@)
                &&& final(self).source_info@ == old(self).source_info@.push(None::<SourceInfo>)
            },
    {
        let node = Node { id, kind };
        let node_ok: bool = match node.id.file {
            Some(f) => f.index < self.files.len(),
            None => true,
        } && match node.kind {
            NodeKind::PushSymbol { symbol, .. } => symbol.index < self.symbols.len(),
            NodeKind::PushScopedSymbol { symbol, scope, .. } => symbol.index < self.symbols.len()
                && scope.index < self.nodes.len(),
            NodeKind::PopSymbol { symbol, .. } => symbol.index < self.symbols.len(),
            NodeKind::PopScopedSymbol { symbol, .. } => symbol.index < self.symbols.len(),
            _ => true,
        };
        if !node_ok {
            return None;
        }
        let n = self.nodes.len();
        for i in 0..n
            invariant
                *self == *old(self),
                self.wf(),
                n == self.nodes@.len(),
                forall|j: int| 0 <= j < i ==> (#[trigger] self.nodes@[j]).id != id,
        {
            if self.nodes[i].id.equals(&id) {
                return None;
            }
        }
        let mut empty_out: Vec<Edge> = Vec::new();
        self.nodes.push(node);
        self.outgoing.push(empty_out);
        self.source_info.push(None);
        let ghost oldg = *old(self);
        assert forall|i: int| 0 <= i < self.nodes@.len() implies self.node_wf(
            #[trigger] self.nodes@[i],
        ) by {
            if i < oldg.nodes@.len() {
                assert(oldg.node_wf(oldg.nodes@[i]));
            }
        }
        assert forall|i: int, j: int|
            0 <= i < self.outgoing@.len() && 0 <= j < self.outgoing@[i].len() implies {
            &&& self.edge_wf(#[trigger] self.outgoing@[i]@[j])
            &&& self.outgoing@[i]@[j].source == (NodeHandle { index: i as usize })
        } by {
            if i < oldg.outgoing@.len() {
                assert(oldg.edge_wf(oldg.outgoing@[i]@[j]));
            }
        }
        Some(NodeHandle { index: n })
    }

    /// Adds a scope node with the given identity.
    pub fn add_scope_node(&mut self, id: NodeID, is_exported: bool) -> (r: Option<NodeHandle>)
        requires
            old(self).wf(),
        ensures
            final(self).wf(),
            final(self).symbols == old(self).symbols,
            final(self).files == old(self).files,
            r is None ==> *final(self) == *old(self),
            r is None <==> old(self).spec_id_bound(id) || !old(self).node_wf(
                Node { id, kind: NodeKind::Scope { is_exported } },
            ),
            r is Some ==> {
                &&& r->Some_0 == (NodeHandle { index: old(self).nodes@.len() as usize })
                &&& final(self).nodes@ == old(self).nodes@.push(
                    Node { id, kind: NodeKind::Scope { is_exported } },
                )
                &&& spec_pushed_empty_out(old(self).outgoing@, final(self).outgoing@)
                &&& final(self).source_info@ == old(self).source_info@.push(None::<SourceInfo>)
            },
    {
        self.add_node(id, NodeKind::Scope { is_exported })
    }

    /// Adds an internal (plain transit) node with the given identity.
    pub fn add_internal_node(&mut self, id: NodeID) -> (r: Option<NodeHandle>)
        requires
            old(self).wf(),
        ensures
            final(self).wf(),
            final(self).symbols == old(self).symbols,
            final(self).files == old(self).files,
            r is None ==> *final(self) == *old(self),
            r is None <==> old(self).spec_id_bound(id) || !old(self).node_wf(
                Node { id, kind: NodeKind::Internal },
            ),
            r is Some ==> {
                &&& r->Some_0 == (NodeHandle { index: old(self).nodes@.len() as usize })
                &&& final(self).nodes@ == old(self).nodes@.push(Node { id, kind: NodeKind::Internal })
                &&& spec_pushed_empty_out(old(self).outgoing@, final(self).outgoing@)
                &&& final(self).source_info@ == old(self).source_info@.push(None::<SourceInfo>)
            },
    {
        self.add_node(id, NodeKind::Internal)
    }

    /// Adds a push-symbol node; `is_reference` marks it as a reference.
    pub fn add_push_symbol_node(
        &mut self,
        id: NodeID,
        symbol: SymbolHandle,
        is_reference: bool,
    ) -> (r: Option<NodeHandle>)
        requires
            old(self).wf(),
        ensures
            final(self).wf(),
            final(self).symbols == old(self).symbols,
            final(self).files == old(self).files,
            r is None ==> *final(self) == *old(self),
            r is None <==> old(self).spec_id_bound(id) || !old(self).node_wf(
                Node { id, kind: NodeKind::PushSymbol { symbol, is_reference } },
            ),
            r is Some ==> {
                &&& r->Some_0 == (NodeHandle { index: old(self).nodes@.len() as usize })
                &&& final(self).nodes@ == old(self).nodes@.push(
                    Node { id, kind: NodeKind::PushSymbol { symbol, is_reference } },
                )
                &&& spec_pushed_empty_out(old(self).outgoing@, final(self).outgoing@)
                &&& final(self).source_info@ == old(self).source_info@.push(None::<SourceInfo>)
            },
    {
        self.add_node(id, NodeKind::PushSymbol { symbol, is_reference })
    }

    /// Adds a push-scoped-symbol node whose attached scope list is rooted at
    /// `scope`.
    pub fn add_push_scoped_symbol_node(
        &mut self,
        id: NodeID,
        symbol: SymbolHandle,
        scope: NodeHandle,
        is_reference: bool,
    ) -> (r: Option<NodeHandle>)
        requires
            old(self).wf(),
        ensures
            final(self).wf(),
            final(self).symbols == old(self).symbols,
            final(self).files == old(self).files,
            r is None ==> *final(self) == *old(self),
            r is None <==> old(self).spec_id_bound(id) || !old(self).node_wf(
                Node { id, kind: NodeKind::PushScopedSymbol { symbol, scope, is_reference } },
            ),
            r is Some ==> {
                &&& r->Some_0 == (NodeHandle { index: old(self).nodes@.len() as usize })
                &&& final(self).nodes@ == old(self).nodes@.push(
                    Node { id, kind: NodeKind::PushScopedSymbol { symbol, scope, is_reference } },
                )
                &&& spec_pushed_empty_out(old(self).outgoing@, final(self).outgoing@)
                &&& final(self).source_info@ == old(self).source_info@.push(None::<SourceInfo>)
            },
    {
        self.add_node(id, NodeKind::PushScopedSymbol { symbol, scope, is_reference })
    }

    /// Adds a pop-symbol node; `is_definition` marks it as a definition.
    pub fn add_pop_symbol_node(
        &mut self,
        id: NodeID,
        symbol: SymbolHandle,
        is_definition: bool,
    ) -> (r: Option<NodeHandle>)
        requires
            old(self).wf(),
        ensures
            final(self).wf(),
            final(self).symbols == old(self).symbols,
            final(self).files == old(self).files,
            r is None ==> *final(self) == *old(self),
            r is None <==> old(self).spec_id_bound(id) || !old(self).node_wf(
                Node { id, kind: NodeKind::PopSymbol { symbol, is_definition } },
            ),
            r is Some ==> {
                &&& r->Some_0 == (NodeHandle { index: old(self).nodes@.len() as usize })
                &&& final(self).nodes@ == old(self).nodes@.push(
                    Node { id, kind: NodeKind::PopSymbol { symbol, is_definition } },
                )
                &&& spec_pushed_empty_out(old(self).outgoing@, final(self).outgoing@)
                &&& final(self).source_info@ == old(self).source_info@.push(None::<SourceInfo>)
            },
    {
        self.add_node(id, NodeKind::PopSymbol { symbol, is_definition })
    }

    /// Adds a pop-scoped-symbol node.
    pub fn add_pop_scoped_symbol_node(
        &mut self,
        id: NodeID,
        symbol: SymbolHandle,
        is_definition: bool,
    ) -> (r: Option<NodeHandle>)
        requires
            old(self).wf(),
        ensures
            final(self).wf(),
            final(self).symbols == old(self).symbols,
            final(self).files == old(self).files,
            r is None ==> *final(self) == *old(self),
            r is None <==> old(self).spec_id_bound(id) || !old(self).node_wf(
                Node { id, kind: NodeKind::PopScopedSymbol { symbol, is_definition } },
            ),
            r is Some ==> {
                &&& r->Some_0 == (NodeHandle { index: old(self).nodes@.len() as usize })
                &&& final(self).nodes@ == old(self).nodes@.push(
                    Node { id, kind: NodeKind::PopScopedSymbol { symbol, is_definition } },
                )
                &&& spec_pushed_empty_out(old(self).outgoing@, final(self).outgoing@)
                &&& final(self).source_info@ == old(self).source_info@.push(None::<SourceInfo>)
            },
    {
        self.add_node(id, NodeKind::PopScopedSymbol { symbol, is_definition })
    }

    /// Adds an edge. Re-adding an edge with the same source and sink keeps a
    /// single edge whose precedence is the maximum of the two, so insertion
    /// is idempotent modulo precedence maximisation.
    pub fn add_edge(&mut self, source: NodeHandle, sink: NodeHandle, precedence: i32)
        requires
            old(self).wf(),
            old(self).node_in_bounds(source),
            old(self).node_in_bounds(sink),
        ensures
            final(self).wf(),
            final(self).symbols == old(self).symbols,
            final(self).files == old(self).files,
            final(self).nodes == old(self).nodes,
            final(self).source_info == old(self).source_info,
            final(self).outgoing@.len() == old(self).outgoing@.len(),
            forall|i: int|
                0 <= i < final(self).outgoing@.len() && i != source.index ==> final(self).outgoing@[i]
                    == (#[trigger] old(self).outgoing@[i]),
            final(self).outgoing@[source.index as int]@ == spec_add_edge(
                old(self).outgoing@[source.index as int]@,
                source,
                sink,
                precedence,
            ),
    {
        let ghost old_out = self.outgoing@[source.index as int]@;
        let n = self.outgoing[source.index].len();
        let mut found: Option<usize> = None;
        for j in 0..n
            invariant
                *self == *old(self),
                n == self.outgoing@[source.index as int]@.len(),
                source.index < self.outgoing@.len(),
                found is None ==> forall|k: int|
                    0 <= k < j ==> (#[trigger] self.outgoing@[source.index as int]@[k]).sink
                        != sink,
                found is Some ==> {
                    &&& found->Some_0 < n
                    &&& self.outgoing@[source.index as int]@[found->Some_0 as int].sink == sink
                },
        {
            if found.is_none() && self.outgoing[source.index][j].sink == sink {
                found = Some(j);
            }
        }
        match found {
            Some(j) => {
                let old_prec = self.outgoing[source.index][j].precedence;
                let new_prec = if old_prec >= precedence {
                    old_prec
                } else {
                    precedence
                };
                let edge = Edge { source, sink, precedence: new_prec };
                let out = &mut self.outgoing[source.index];
                out[j] = edge;
                proof {
                    let k0 = choose|k: int|
                        0 <= k < old_out.len() && (#[trigger] old_out[k]).sink == sink;
                    assert(old(self).wf());
                    assert(k0 == j as int) by {
                        if k0 < j as int {
                            assert(old_out[k0].sink != old_out[j as int].sink);
                        } else if k0 > j as int {
                            assert(old_out[j as int].sink != old_out[k0].sink);
                        }
                    }
                    assert(old_out[j as int].source == source);
                    assert(self.outgoing@[source.index as int]@ =~= spec_add_edge(
                        old_out,
                        source,
                        sink,
                        precedence,
                    ));
                    let new_out = self.outgoing@[source.index as int]@;
                    assert forall|a: int, b: int| 0 <= a < b < new_out.len() implies (
                    #[trigger] new_out[a]).sink != (#[trigger] new_out[b]).sink by {
                        assert(old_out[a].sink != old_out[b].sink);
                        assert(new_out[a].sink == old_out[a].sink);
                        assert(new_out[b].sink == old_out[b].sink);
                    }
                }
            },
            None => {
                let edge = Edge { source, sink, precedence };
                let out = &mut self.outgoing[source.index];
                out.push(edge);
                proof {
                    assert(forall|k: int|
                        0 <= k < old_out.len() ==> (#[trigger] old_out[k]).sink != sink);
                    assert(self.outgoing@[source.index as int]@ =~= spec_add_edge(
                        old_out,
                        source,
                        sink,
                        precedence,
                    ));
                    let new_out = self.outgoing@[source.index as int]@;
                    assert forall|a: int, b: int| 0 <= a < b < new_out.len() implies (
                    #[trigger] new_out[a]).sink != (#[trigger] new_out[b]).sink by {
                        if b < old_out.len() {
                            assert(old_out[a].sink != old_out[b].sink);
                        } else {
                            assert(old_out[a].sink != sink);
                        }
                    }
                }
            },
        }
        proof {
            assert forall|i: int, j: int|
                0 <= i < self.outgoing@.len() && 0 <= j < self.outgoing@[i].len() implies {
                &&& self.edge_wf(#[trigger] self.outgoing@[i]@[j])
                &&& self.outgoing@[i]@[j].source == (NodeHandle { index: i as usize })
            } by {
                if i != source.index as int {
                    assert(old(self).edge_wf(old(self).outgoing@[i]@[j]));
                    assert(old(self).outgoing@[i]@[j].source == (NodeHandle { index: i as usize }));
                } else {
                    let new_out = self.outgoing@[i]@;
                    if j < old_out.len() && new_out[j] == old_out[j] {
                        assert(old(self).edge_wf(old_out[j]));
                        assert(old_out[j].source == (NodeHandle { index: i as usize }));
                    }
                }
            }
            assert forall|i: int, j: int, k: int|
                0 <= i < self.outgoing@.len() && 0 <= j < k < self.outgoing@[i].len() implies (
            #[trigger] self.outgoing@[i]@[j]).sink != (#[trigger] self.outgoing@[i]@[k]).sink by {
                if i != source.index as int {
                    assert(old(self).outgoing@[i]@[j].sink != old(self).outgoing@[i]@[k].sink);
                }
            }
        }
    }

    /// The outgoing edges of a node.
    pub fn outgoing_edges(&self, node: NodeHandle) -> (r: &Vec<Edge>)
        requires
            self.wf(),
            self.node_in_bounds(node),
        ensures
            r@ == self.outgoing@[node.index as int]@,
    {
        &self.outgoing[node.index]
    }

    /// The handles, in ascending order, of the first `n` nodes that belong
    /// to `file`.
    pub open spec fn spec_nodes_for_file_up_to(&self, file: FileHandle, n: int) -> Seq<NodeHandle>
        decreases n,
    {
        if n <= 0 {
            Seq::empty()
        } else {
            let rest = self.spec_nodes_for_file_up_to(file, n - 1);
            if self.nodes@[n - 1].id.file == Some(file) {
                rest.push(NodeHandle { index: (n - 1) as usize })
            } else {
                rest
            }
        }
    }

    /// The handles, in ascending order, of all nodes that belong to `file`.
    pub open spec fn spec_nodes_for_file(&self, file: FileHandle) -> Seq<NodeHandle> {
        self.spec_nodes_for_file_up_to(file, self.nodes@.len() as int)
    }

    /// All nodes of a file, in ascending handle order.
    pub fn nodes_for_file(&self, file: FileHandle) -> (r: Vec<NodeHandle>)
        requires
            self.wf(),
        ensures
            r@ == self.spec_nodes_for_file(file),
    {
        let mut r: Vec<NodeHandle> = Vec::new();
        let n = self.nodes.len();
        for i in 0..n
            invariant
                n == self.nodes@.len(),
                r@ == self.spec_nodes_for_file_up_to(file, i as int),
        {
            let matches_file: bool = match self.nodes[i].id.file {
                Some(f) => f == file,
                None => false,
            };
            if matches_file {
                r.push(NodeHandle { index: i });
            }
        }
        r
    }

    /// The source information attached to a node, if any.
    pub fn source_info(&self, node: NodeHandle) -> (r: &Option<SourceInfo>)
        requires
            self.wf(),
            self.node_in_bounds(node),
        ensures
            r == self.source_info@[node.index as int],
    {
        &self.source_info[node.index]
    }

    /// Attaches source information to a node, replacing any previous value.
    pub fn set_source_info(&mut self, node: NodeHandle, info: SourceInfo)
        requires
            old(self).wf(),
            old(self).node_in_bounds(node),
        ensures
            final(self).wf(),
            final(self).symbols == old(self).symbols,
            final(self).files == old(self).files,
            final(self).nodes == old(self).nodes,
            final(self).outgoing == old(self).outgoing,
            final(self).source_info@ == old(self).source_info@.update(
                node.index as int,
                Some(info),
            ),
    {
        self.source_info[node.index] = Some(info);
    }

    /// True when the node is a reference whose span contains `position`.
    pub open spec fn spec_is_reference_at(&self, h: NodeHandle, position: Position) -> bool {
        &&& self.nodes@[h.index as int].spec_is_reference()
        &&& match self.source_info@[h.index as int] {
            Some(si) => si.span.spec_contains(position),
            None => false,
        }
    }

    /// True when the node is a definition whose span contains `position`.
    pub open spec fn spec_is_definition_at(&self, h: NodeHandle, position: Position) -> bool {
        &&& self.nodes@[h.index as int].spec_is_definition()
        &&& match self.source_info@[h.index as int] {
            Some(si) => si.span.spec_contains(position),
            None => false,
        }
    }

    /// True when the node is a reference whose span overlaps the line range
    /// `line_start ..= line_end`.
    pub open spec fn spec_is_reference_in_range(
        &self,
        h: NodeHandle,
        line_start: usize,
        line_end: usize,
    ) -> bool {
        &&& self.nodes@[h.index as int].spec_is_reference()
        &&& match self.source_info@[h.index as int] {
            Some(si) => si.span.start.line <= line_end && si.span.end.line >= line_start,
            None => false,
        }
    }

    /// The handles, in ascending order, of the first `n` nodes that are
    /// references of `file` whose spans overlap the line range.
    pub open spec fn spec_references_in_range_up_to(
        &self,
        file: FileHandle,
        line_start: usize,
        line_end: usize,
        n: int,
    ) -> Seq<NodeHandle>
        decreases n,
    {
        if n <= 0 {
            Seq::empty()
        } else {
            let rest = self.spec_references_in_range_up_to(file, line_start, line_end, n - 1);
            let h = NodeHandle { index: (n - 1) as usize };
            if self.nodes@[n - 1].id.file == Some(file) && self.spec_is_reference_in_range(
                h,
                line_start,
                line_end,
            ) {
                rest.push(h)
            } else {
                rest
            }
        }
    }

    /// The handles, in ascending order, of all references of `file` whose
    /// spans overlap the line range.
    pub open spec fn spec_references_in_range(
        &self,
        file: FileHandle,
        line_start: usize,
        line_end: usize,
    ) -> Seq<NodeHandle> {
        self.spec_references_in_range_up_to(file, line_start, line_end, self.nodes@.len() as int)
    }

    /// The reference nodes of `file` whose spans overlap the zero-based line
    /// range `line_start ..= line_end`, in ascending handle order.
    pub fn find_references_in_range(
        &self,
        file: FileHandle,
        line_start: usize,
        line_end: usize,
    ) -> (r: Vec<NodeHandle>)
        requires
            self.wf(),
        ensures
            r@ == self.spec_references_in_range(file, line_start, line_end),
            forall|i: int|
                0 <= i < r@.len() ==> {
                    &&& (#[trigger] r@[i]).index < self.nodes@.len()
                    &&& self.nodes@[r@[i].index as int].id.file == Some(file)
                    &&& self.spec_is_reference_in_range(r@[i], line_start, line_end)
                },
            forall|h: NodeHandle|
                h.index < self.nodes@.len() && self.nodes@[h.index as int].id.file == Some(file)
                    && #[trigger] self.spec_is_reference_in_range(h, line_start, line_end)
                    ==> r@.contains(h),
    {
        let mut r: Vec<NodeHandle> = Vec::new();
        let n = self.nodes.len();
        for i in 0..n
            invariant
                n == self.nodes@.len(),
                self.wf(),
                r@ == self.spec_references_in_range_up_to(file, line_start, line_end, i as int),
                forall|k: int|
                    0 <= k < r@.len() ==> {
                        &&& (#[trigger] r@[k]).index < i
                        &&& self.nodes@[r@[k].index as int].id.file == Some(file)
                        &&& self.spec_is_reference_in_range(r@[k], line_start, line_end)
                    },
                forall|h: NodeHandle|
                    h.index < i && self.nodes@[h.index as int].id.file == Some(file)
                        && #[trigger] self.spec_is_reference_in_range(h, line_start, line_end)
                        ==> r@.contains(h),
        {
            let ghost r_before = r@;
            let in_file: bool = match self.nodes[i].id.file {
                Some(f) => f == file,
                None => false,
            };
            let is_ref = self.nodes[i].is_reference();
            let overlaps: bool = match &self.source_info[i] {
                Some(si) => si.span.start.line <= line_end && si.span.end.line >= line_start,
                None => false,
            };
            let h = NodeHandle { index: i };
            if in_file && is_ref && overlaps {
                r.push(h);
                proof {
                    assert(self.spec_is_reference_in_range(h, line_start, line_end));
                }
            }
            proof {
                assert forall|g: NodeHandle|
                    g.index < i + 1 && self.nodes@[g.index as int].id.file == Some(file)
                        && #[trigger] self.spec_is_reference_in_range(g, line_start, line_end)
                        implies r@.contains(g) by {
                    if g.index < i {
                        assert(r_before.contains(g));
                        let k = choose|k: int| 0 <= k < r_before.len() && r_before[k] == g;
                        assert(r@[k] == g);
                    } else {
                        assert(g == h);
                        assert(r@[r@.len() - 1] == g);
                    }
                }
            }
        }
        r
    }
}

/// Raising an edge's precedence is idempotent: inserting `(source, sink)`
/// twice, with any two precedences, leaves the outgoing list exactly as one
/// insertion with the larger precedence would.
pub proof fn lemma_add_edge_idempotent(
    out: Seq<Edge>,
    source: NodeHandle,
    sink: NodeHandle,
    p1: i32,
    p2: i32,
)
    requires
        forall|j: int, k: int| 0 <= j < k < out.len() ==> (#[trigger] out[j]).sink != (
        #[trigger] out[k]).sink,
    ensures
        spec_add_edge(spec_add_edge(out, source, sink, p1), source, sink, p2) == spec_add_edge(
            out,
            source,
            sink,
            spec_max_i32(p1, p2),
        ),
{
    let once = spec_add_edge(out, source, sink, p1);
    if exists|k: int| 0 <= k < out.len() && (#[trigger] out[k]).sink == sink {
        let k = choose|k: int| 0 <= k < out.len() && (#[trigger] out[k]).sink == sink;
        assert(once == out.update(
            k,
            Edge { source, sink, precedence: spec_max_i32(out[k].precedence, p1) },
        ));
        assert(once[k].sink == sink);
        let k2 = choose|j: int| 0 <= j < once.len() && (#[trigger] once[j]).sink == sink;
        assert(k2 == k) by {
            if k2 < k {
                assert(out[k2].sink != out[k].sink);
                assert(once[k2] == out[k2]);
            } else if k2 > k {
                assert(out[k].sink != out[k2].sink);
                assert(once[k2] == out[k2]);
            }
        }
        assert(spec_add_edge(once, source, sink, p2) =~= out.update(
            k,
            Edge { source, sink, precedence: spec_max_i32(out[k].precedence, spec_max_i32(p1, p2)) },
        ));
        assert(spec_add_edge(out, source, sink, spec_max_i32(p1, p2)) == out.update(
            k,
            Edge { source, sink, precedence: spec_max_i32(out[k].precedence, spec_max_i32(p1, p2)) },
        ));
    } else {
        assert(once == out.push(Edge { source, sink, precedence: p1 }));
        let n = out.len() as int;
        assert(once[n].sink == sink);
        let k2 = choose|j: int| 0 <= j < once.len() && (#[trigger] once[j]).sink == sink;
        assert(k2 == n) by {
            if k2 < n {
                assert(out[k2].sink == sink);
            }
        }
        assert(spec_add_edge(once, source, sink, p2) =~= out.push(
            Edge { source, sink, precedence: spec_max_i32(p1, p2) },
        ));
    }
}

} // verus!
