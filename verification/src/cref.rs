use vstd::prelude::*;

verus! {

/// Reference to a clause: its position in the clause allocator.
#[derive(Debug, Copy, Clone, Eq, PartialEq, Structural)]
pub struct ClauseRef(pub(crate) usize);

impl View for ClauseRef {
    type V = usize;

    closed spec fn view(&self) -> usize {
        self.0
    }
}

impl ClauseRef {
    /// The position of the referenced clause.
    pub fn index(self) -> (res: usize)
        ensures
            res == self@,
    {
        self.0
    }

    /// Two references are equal exactly when their positions are.
    pub proof fn lemma_view_injective(a: ClauseRef, b: ClauseRef)
        ensures
            (a@ == b@) <==> (a == b),
    {
    }

    /// A reference to the clause at position `index`.
    pub fn new(index: usize) -> (res: Self)
        ensures
            res@ == index,
    {
        ClauseRef(index)
    }
}

} // verus!
