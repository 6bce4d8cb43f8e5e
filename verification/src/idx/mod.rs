use vstd::prelude::*;

use crate::lit::Lit;
use crate::var::Var;

pub mod idx_heap;
pub mod idx_vec;

pub use self::idx_heap::IdxHeap;
pub use self::idx_vec::IdxVec;

verus! {

/// Keys that map to a position in a vector.
pub trait Idx: Sized {
    /// The position of the key (spec form).
    spec fn spec_idx(&self) -> nat;

    /// The position of the key.
    fn idx(&self) -> (res: usize)
        ensures
            res == self.spec_idx(),
    ;

    /// Distinct keys have distinct positions.
    proof fn lemma_idx_injective(a: Self, b: Self)
        ensures
            a.spec_idx() == b.spec_idx() ==> a == b,
    ;
}

impl Idx for Var {
    open spec fn spec_idx(&self) -> nat {
        self@ as nat
    }

    fn idx(&self) -> (res: usize) {
        self.index()
    }

    proof fn lemma_idx_injective(a: Self, b: Self) {
        Var::lemma_view_injective(a, b);
    }
}

impl Idx for Lit {
    open spec fn spec_idx(&self) -> nat {
        self@ as nat
    }

    fn idx(&self) -> (res: usize) {
        self.index()
    }

    proof fn lemma_idx_injective(a: Self, b: Self) {
        Lit::lemma_view_injective(a, b);
    }
}

impl Idx for u32 {
    open spec fn spec_idx(&self) -> nat {
        *self as nat
    }

    fn idx(&self) -> (res: usize) {
        *self as usize
    }

    proof fn lemma_idx_injective(a: Self, b: Self) {
    }
}

impl Idx for usize {
    open spec fn spec_idx(&self) -> nat {
        *self as nat
    }

    fn idx(&self) -> (res: usize) {
        *self
    }

    proof fn lemma_idx_injective(a: Self, b: Self) {
    }
}

} // verus!
