use vstd::prelude::*;

use crate::assignment::{lit_value, Assignment};
use crate::lbool::LBool;
use crate::lit::Lit;

verus! {

/// A clause: a disjunction of literals, possibly learnt, possibly deleted.
#[derive(Debug, Clone)]
pub struct Clause {
    lits: Vec<Lit>,
    learnt: bool,
    deleted: bool,
}

impl View for Clause {
    type V = Seq<Lit>;

    /// The literals of the clause.
    closed spec fn view(&self) -> Seq<Lit> {
        self.lits@
    }
}

/// Whether every literal of `lits` has a variable below `n`.
pub open spec fn lits_in_range(lits: Seq<Lit>, n: nat) -> bool {
    forall|k: int| 0 <= k < lits.len() ==> (#[trigger] lits[k]).var()@ < n
}

impl Clause {
    /// Whether the clause was learnt (spec form).
    pub closed spec fn learnt_spec(&self) -> bool {
        self.learnt
    }

    /// Whether the clause is deleted (spec form).
    pub closed spec fn deleted_spec(&self) -> bool {
        self.deleted
    }

    /// A clause over `lits`, not deleted.
    pub fn new(lits: Vec<Lit>, learnt: bool) -> (res: Self)
        ensures
            res@ == lits@,
            res.learnt_spec() == learnt,
            !res.deleted_spec(),
    {
        Clause { lits, learnt, deleted: false }
    }

    /// A clause over the non-zero external (DIMACS) literals `lits`.
    pub fn from_lits(lits: &[i32]) -> (res: Self)
        requires
            forall|k: int| 0 <= k < lits@.len() ==> lits@[k] != 0,
        ensures
            res@.len() == lits@.len(),
            forall|k: int| 0 <= k < lits@.len() ==> (#[trigger] res@[k])@ == crate::lit::external_code(lits@[k]),
            !res.learnt_spec(),
            !res.deleted_spec(),
    {
        let mut v: Vec<Lit> = Vec::new();
        let mut i: usize = 0;
        while i < lits.len()
            invariant
                i <= lits@.len(),
                v@.len() == i,
                forall|k: int| 0 <= k < lits@.len() ==> lits@[k] != 0,
                forall|k: int| 0 <= k < i ==> (#[trigger] v@[k])@ == crate::lit::external_code(lits@[k]),
            decreases lits@.len() - i,
        {
            v.push(Lit::from_external(lits[i]));
            i = i + 1;
        }
        Self::new(v, false)
    }

    /// The literals.
    pub fn lits(&self) -> (res: &[Lit])
        ensures
            res@ == self@,
    {
        self.lits.as_slice()
    }

    /// Whether the clause was learnt.
    pub fn is_learnt(&self) -> (res: bool)
        ensures
            res == self.learnt_spec(),
    {
        self.learnt
    }

    /// Whether the clause is deleted.
    pub fn is_deleted(&self) -> (res: bool)
        ensures
            res == self.deleted_spec(),
    {
        self.deleted
    }

    /// Marks the clause deleted; its literals stay.
    pub fn mark_deleted(&mut self)
        ensures
            final(self)@ == old(self)@,
            final(self).learnt_spec() == old(self).learnt_spec(),
            final(self).deleted_spec(),
    {
        self.deleted = true;
    }

    /// Number of literals.
    pub fn len(&self) -> (res: usize)
        ensures
            res == self@.len(),
    {
        self.lits.len()
    }

    /// Whether the clause has no literal.
    pub fn is_empty(&self) -> (res: bool)
        ensures
            res == (self@.len() == 0),
    {
        self.lits.len() == 0
    }

    /// The literal at position `i`.
    pub fn get(&self, i: usize) -> (res: Lit)
        requires
            i < self@.len(),
        ensures
            res == self@[i as int],
    {
        self.lits[i]
    }

    /// Replaces the literal at position `i`.
    pub fn set(&mut self, i: usize, lit: Lit)
        requires
            i < old(self)@.len(),
        ensures
            final(self)@ == old(self)@.update(i as int, lit),
            final(self).learnt_spec() == old(self).learnt_spec(),
            final(self).deleted_spec() == old(self).deleted_spec(),
    {
        self.lits.set(i, lit);
    }

    /// Whether some literal is true under `assignment`.
    pub fn is_satisfied(&self, assignment: &Assignment) -> (res: bool)
        requires
            lits_in_range(self@, assignment.num_vars()),
        ensures
            res == exists|k: int| 0 <= k < self@.len() && lit_value(assignment.values(), #[trigger] self@[k]) == LBool::True,
    {
        let mut i: usize = 0;
        while i < self.lits.len()
            invariant
                i <= self@.len(),
                lits_in_range(self@, assignment.num_vars()),
                forall|k: int| 0 <= k < i ==> lit_value(assignment.values(), #[trigger] self@[k]) != LBool::True,
            decreases self@.len() - i,
        {
            if assignment.value(self.lits[i]) == LBool::True {
                return true;
            }
            i = i + 1;
        }
        false
    }

    /// `True` if some literal is fixed (assigned at level 0) to true, else `False` if some
    /// literal is fixed to false, else `Undef`.
    pub fn contains_fixed_literal(&self, assignment: &Assignment) -> (res: LBool)
        requires
            lits_in_range(self@, assignment.num_vars()),
            assignment.num_vars() == assignment.data().len(),
        ensures
            res == LBool::True <==> exists|k: int| 0 <= k < self@.len() && assignment.fixed_spec(#[trigger] self@[k]) == LBool::True,
            res == LBool::False <==> (
                (forall|k: int| 0 <= k < self@.len() ==> assignment.fixed_spec(#[trigger] self@[k]) != LBool::True)
                && exists|k: int| 0 <= k < self@.len() && assignment.fixed_spec(#[trigger] self@[k]) == LBool::False),
    {
        let mut num_satisfied: usize = 0;
        let mut num_falsified: usize = 0;
        let mut i: usize = 0;
        while i < self.lits.len()
            invariant
                i <= self@.len(),
                lits_in_range(self@, assignment.num_vars()),
                assignment.num_vars() == assignment.data().len(),
                num_satisfied <= i,
                num_falsified <= i,
                (num_satisfied > 0) <==> exists|k: int| 0 <= k < i && assignment.fixed_spec(#[trigger] self@[k]) == LBool::True,
                (num_falsified > 0) <==> exists|k: int| 0 <= k < i && assignment.fixed_spec(#[trigger] self@[k]) == LBool::False,
            decreases self@.len() - i,
        {
            let lit = self.lits[i];
            match assignment.fixed(lit) {
                LBool::True => {
                    num_satisfied = num_satisfied + 1;
                },
                LBool::False => {
                    num_falsified = num_falsified + 1;
                },
                LBool::Undef => {},
            }
            proof {
                assert(self@[i as int] == lit);
            }
            i = i + 1;
        }
        if num_satisfied > 0 {
            LBool::True
        } else if num_falsified > 0 {
            LBool::False
        } else {
            LBool::Undef
        }
    }

    /// Removes the literals at positions 2 and above that are fixed to false; the first two
    /// literals, which must be unassigned, stay in place.
    pub fn remove_falsified_literals(&mut self, assignment: &Assignment)
        requires
            old(self)@.len() >= 2,
            assignment.num_vars() == assignment.data().len(),
            lits_in_range(old(self)@, assignment.num_vars()),
            lit_value(assignment.values(), old(self)@[0]) == LBool::Undef,
            lit_value(assignment.values(), old(self)@[1]) == LBool::Undef,
        ensures
            final(self)@.len() >= 2,
            final(self)@.len() <= old(self)@.len(),
            final(self)@[0] == old(self)@[0],
            final(self)@[1] == old(self)@[1],
            lits_in_range(final(self)@, assignment.num_vars()),
            forall|k: int| 2 <= k < final(self)@.len() ==> assignment.fixed_spec(#[trigger] final(self)@[k]) != LBool::False,
            forall|l: Lit| #[trigger] final(self)@.contains(l) <==> (old(self)@.contains(l) && assignment.fixed_spec(l) != LBool::False),
            final(self).learnt_spec() == old(self).learnt_spec(),
            final(self).deleted_spec() == old(self).deleted_spec(),
    {
        let mut i: usize = 2;
        let mut j: usize = self.lits.len();
        let ghost orig = self.lits@;
        proof {
            assert(assignment.fixed_spec(orig[0]) != LBool::False);
            assert(assignment.fixed_spec(orig[1]) != LBool::False);
        }
        while i < j
            invariant
                2 <= i <= j,
                j == self.lits@.len(),
                j <= orig.len(),
                orig.len() >= 2,
                self.lits@[0] == orig[0],
                self.lits@[1] == orig[1],
                assignment.num_vars() == assignment.data().len(),
                lits_in_range(self.lits@, assignment.num_vars()),
                assignment.fixed_spec(orig[0]) != LBool::False,
                assignment.fixed_spec(orig[1]) != LBool::False,
                forall|k: int| 2 <= k < i ==> assignment.fixed_spec(#[trigger] self.lits@[k]) != LBool::False,
                forall|l: Lit| #[trigger] self.lits@.contains(l) ==> orig.contains(l),
                forall|l: Lit| #[trigger] orig.contains(l) && assignment.fixed_spec(l) != LBool::False ==> self.lits@.contains(l),
                self.learnt == old(self).learnt,
                self.deleted == old(self).deleted,
            decreases j - i,
        {
            if assignment.fixed(self.lits[i]) == LBool::False {
                let ghost before = self.lits@;
                self.lits.swap_remove(i);
                j = j - 1;
                proof {
                    let after = self.lits@;
                    assert forall|l: Lit| #[trigger] after.contains(l) implies orig.contains(l) by {
                        let k = choose|k: int| 0 <= k < after.len() && after[k] == l;
                        if k == i {
                            assert(before.contains(before.last()));
                        } else {
                            assert(before.contains(before[k]));
                        }
                    }
                    assert forall|l: Lit| #[trigger] orig.contains(l) && assignment.fixed_spec(l) != LBool::False implies after.contains(l) by {
                        assert(before.contains(l));
                        let k = choose|k: int| 0 <= k < before.len() && before[k] == l;
                        if k == i {
                            assert(false);
                        } else if k == before.len() - 1 {
                            assert(after[i as int] == l);
                        } else {
                            assert(after[k] == l);
                        }
                    }
                }
            } else {
                i = i + 1;
            }
        }
        proof {
            let fin = self.lits@;
            assert forall|l: Lit| #[trigger] fin.contains(l) implies assignment.fixed_spec(l) != LBool::False by {
                let k = choose|k: int| 0 <= k < fin.len() && fin[k] == l;
                if k >= 2 {
                    assert(assignment.fixed_spec(fin[k]) != LBool::False);
                }
            }
        }
    }
}

} // verus!
