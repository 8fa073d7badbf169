//! Path validity: the errors that reject a candidate path, and a small
//! collection trait used to receive path-finding results.
//!
//! Path-resolution errors are path-local and expected: when the
//! path-finding algorithm encounters one, it abandons that candidate path
//! and tries other routes. They never abort a whole run.

use vstd::prelude::*;

verus! {

/// Why a candidate path was rejected during path resolution.
#[derive(Clone, Copy, Debug, PartialEq, Eq, Structural)]
pub enum PathResolutionError {
    /// The path contains a cycle, and the cycle is disallowed.
    DisallowedCycle,
    /// A jump-to-scope node was reached with an empty scope stack.
    EmptyScopeStack,
    /// A pop node was reached with an empty symbol stack and no variable
    /// able to supply the popped symbol.
    EmptySymbolStack,
    /// Two references to a scope stack variable cannot unify on a single
    /// scope stack.
    IncompatibleScopeStackVariables,
    /// Two references to a symbol stack variable cannot unify on a single
    /// symbol stack.
    IncompatibleSymbolStackVariables,
    /// The path contains edges from multiple files without crossing the
    /// root.
    IncorrectFile,
    /// A pop node was reached whose symbol does not match the top of the
    /// symbol stack.
    IncorrectPoppedSymbol,
    /// An edge's source does not match the current end of the path.
    IncorrectSourceNode,
    /// A pop-scoped-symbol node was reached, but the popped symbol carries
    /// no attached scope list (or none is known for a variable tail).
    MissingAttachedScopeList,
    /// The scope-stack precondition of an appended partial path is not
    /// satisfied.
    ScopeStackUnsatisfied,
    /// The symbol-stack precondition of an appended partial path is not
    /// satisfied.
    SymbolStackUnsatisfied,
    /// A symbol-stack variable of a postcondition is not bound by the
    /// precondition.
    UnboundSymbolStackVariable,
    /// A scope-stack variable of a postcondition is not bound by the
    /// precondition.
    UnboundScopeStackVariable,
    /// A pop-symbol node was reached, but the popped symbol carries an
    /// attached scope list.
    UnexpectedAttachedScopeList,
    /// A push-scoped-symbol node refers to a scope that is not exported.
    UnknownAttachedScope,
}

/// A collection that can receive path-finding results: the queue and
/// result types accepted by the stitcher. Reserving leaves the elements
/// alone; pushing appends exactly the given element.
pub trait Extend<T> {
    spec fn spec_elements(&self) -> Seq<T>;

    /// Reserve space for `additional` more elements.
    fn reserve(&mut self, additional: usize)
        ensures
            final(self).spec_elements() == old(self).spec_elements(),
    ;

    /// Append one element.
    fn push(&mut self, item: T)
        ensures
            final(self).spec_elements() == old(self).spec_elements().push(item),
    ;
}

impl<T> Extend<T> for Vec<T> {
    open spec fn spec_elements(&self) -> Seq<T> {
        self@
    }

    fn reserve(&mut self, additional: usize) {
        Vec::reserve(self, additional);
    }

    fn push(&mut self, item: T) {
        Vec::push(self, item);
    }
}

impl<T> Extend<T> for std::collections::VecDeque<T> {
    open spec fn spec_elements(&self) -> Seq<T> {
        self@
    }

    fn reserve(&mut self, additional: usize) {
        std::collections::VecDeque::reserve(self, additional);
    }

    fn push(&mut self, item: T) {
        std::collections::VecDeque::push_back(self, item);
    }
}

} // verus!
