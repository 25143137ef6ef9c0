use vstd::prelude::*;

verus! {

/// An opaque identifier for a dotted semantic label such as `source.ruby`.
/// Interning label text to numbers is the caller's business; the parser only
/// moves scopes around.
#[derive(Clone, Copy, PartialEq, Eq, Structural, Debug, Hash)]
pub struct Scope {
    pub id: u64,
}

/// How many scopes a `Clear` operation hides: the top `n`, or every scope.
#[derive(Clone, Copy, PartialEq, Eq, Structural, Debug)]
pub enum ClearAmount {
    TopN(usize),
    All,
}

/// One instruction for the consumer's scope stack. `Clear` hides scopes and
/// `Restore` unhides the most recently cleared group; amounts count scopes.
#[derive(Clone, Copy, PartialEq, Eq, Structural, Debug)]
pub enum ScopeStackOp {
    Push(Scope),
    Pop(usize),
    Clear(ClearAmount),
    Restore,
}

} // verus!
