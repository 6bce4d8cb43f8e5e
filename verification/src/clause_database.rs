use vstd::prelude::*;

use crate::assignment::{lit_value, Assignment};
use crate::clause::lits_in_range;
use crate::clause_allocator::ClauseAllocator;
use crate::cref::ClauseRef;
use crate::lbool::LBool;
use crate::lit::Lit;

verus! {

/// The clauses of a solver: references to the original clauses and to the learnt ones.
#[derive(Debug)]
pub struct ClauseDatabase {
    clauses: Vec<ClauseRef>,
    learnts: Vec<ClauseRef>,
}

/// Whether every clause of `ca` has at least two literals, all with variables below `n`.
pub open spec fn arena_wf(ca: Seq<crate::clause::Clause>, n: nat) -> bool {
    forall|c: int| 0 <= c < ca.len() ==> (#[trigger] ca[c])@.len() >= 2 && lits_in_range(ca[c]@, n)
}

/// Whether every reference of `refs` points into an arena of `len` clauses.
pub open spec fn refs_in(refs: Seq<ClauseRef>, len: nat) -> bool {
    forall|k: int| 0 <= k < refs.len() ==> (#[trigger] refs[k])@ < len
}

/// What simplification guarantees of clause `c`: if kept, it has no literal fixed to true,
/// and, when its first two literals are unassigned, no literal fixed to false after them.
pub open spec fn simplified(c: crate::clause::Clause, assignment: &Assignment) -> bool {
    !c.deleted_spec() ==> {
        &&& forall|k: int| 0 <= k < c@.len() ==> assignment.fixed_spec(#[trigger] c@[k]) != LBool::True
        &&& (lit_value(assignment.values(), c@[0]) == LBool::Undef && lit_value(assignment.values(), c@[1])
            == LBool::Undef) ==> forall|k: int| 2 <= k < c@.len() ==> assignment.fixed_spec(#[trigger] c@[k])
            != LBool::False
    }
}

/// The literals `new` are `old`, or `old` with its second literal in place and the literals
/// fixed to false dropped.
pub open spec fn shrunk(new: Seq<Lit>, old: Seq<Lit>, assignment: &Assignment) -> bool {
    new == old || (new[1] == old[1] && forall|l: Lit|
        #[trigger] new.contains(l) <==> (old.contains(l) && assignment.fixed_spec(l) != LBool::False))
}

impl ClauseDatabase {
    /// References to the original clauses, in insertion order.
    pub closed spec fn clauses_spec(&self) -> Seq<ClauseRef> {
        self.clauses@
    }

    /// References to the learnt clauses.
    pub closed spec fn learnts_spec(&self) -> Seq<ClauseRef> {
        self.learnts@
    }

    /// An empty database.
    pub fn new() -> (res: Self)
        ensures
            res.clauses_spec() == Seq::<ClauseRef>::empty(),
            res.learnts_spec() == Seq::<ClauseRef>::empty(),
    {
        ClauseDatabase { clauses: Vec::new(), learnts: Vec::new() }
    }

    /// References to the original clauses.
    pub fn clauses(&self) -> (res: &[ClauseRef])
        ensures
            res@ == self.clauses_spec(),
    {
        self.clauses.as_slice()
    }

    /// References to the learnt clauses.
    pub fn learnts(&self) -> (res: &[ClauseRef])
        ensures
            res@ == self.learnts_spec(),
    {
        self.learnts.as_slice()
    }

    /// Number of original clauses.
    pub fn num_clauses(&self) -> (res: usize)
        ensures
            res == self.clauses_spec().len(),
    {
        self.clauses.len()
    }

    /// Number of learnt clauses.
    pub fn num_learnts(&self) -> (res: usize)
        ensures
            res == self.learnts_spec().len(),
    {
        self.learnts.len()
    }

    /// Allocates a clause over `lits` in `ca` and records it as original or learnt.
    pub fn new_clause(&mut self, lits: Vec<Lit>, learnt: bool, ca: &mut ClauseAllocator) -> (res: ClauseRef)
        ensures
            res@ == old(ca)@.len(),
            final(ca)@.len() == old(ca)@.len() + 1,
            forall|c: int| 0 <= c < old(ca)@.len() ==> final(ca)@[c] == old(ca)@[c],
            final(ca)@[res@ as int]@ == lits@,
            final(ca)@[res@ as int].learnt_spec() == learnt,
            !final(ca)@[res@ as int].deleted_spec(),
            learnt ==> final(self).learnts_spec() == old(self).learnts_spec().push(res)
                && final(self).clauses_spec() == old(self).clauses_spec(),
            !learnt ==> final(self).clauses_spec() == old(self).clauses_spec().push(res)
                && final(self).learnts_spec() == old(self).learnts_spec(),
    {
        let cref = ca.allocate(lits, learnt);
        if learnt {
            self.learnts.push(cref);
        } else {
            self.clauses.push(cref);
        }
        cref
    }

    /// Deletes every clause (original or learnt) that has a literal fixed to true, and drops
    /// the literals fixed to false from the others (after their first two literals, when those
    /// are unassigned). Only clauses whose first literal is unassigned change their literals.
    pub fn simplify(&mut self, assignment: &Assignment, ca: &mut ClauseAllocator)
        requires
            arena_wf(old(ca)@, assignment.num_vars()),
            assignment.num_vars() == assignment.data().len(),
            refs_in(old(self).clauses_spec(), old(ca)@.len()),
            refs_in(old(self).learnts_spec(), old(ca)@.len()),
        ensures
            final(self).clauses_spec() == old(self).clauses_spec(),
            final(self).learnts_spec() == old(self).learnts_spec(),
            final(ca)@.len() == old(ca)@.len(),
            arena_wf(final(ca)@, assignment.num_vars()),
            forall|c: int|
                0 <= c < old(ca)@.len() ==> {
                    &&& (#[trigger] final(ca)@[c])@ == old(ca)@[c]@ || lit_value(assignment.values(), old(ca)@[c]@[0]) == LBool::Undef
                    &&& shrunk(final(ca)@[c]@, old(ca)@[c]@, assignment)
                    &&& final(ca)@[c]@[0] == old(ca)@[c]@[0]
                    &&& final(ca)@[c].learnt_spec() == old(ca)@[c].learnt_spec()
                    &&& old(ca)@[c].deleted_spec() ==> final(ca)@[c].deleted_spec() && final(ca)@[c]@ == old(ca)@[c]@
                    &&& final(ca)@[c].deleted_spec() && !old(ca)@[c].deleted_spec() ==> exists|j: int|
                        0 <= j < final(ca)@[c]@.len() && assignment.fixed_spec(#[trigger] final(ca)@[c]@[j]) == LBool::True
                },
            forall|k: int| 0 <= k < old(self).clauses_spec().len() ==> simplified(final(ca)@[(#[trigger] old(self).clauses_spec()[k])@ as int], assignment),
            forall|k: int| 0 <= k < old(self).learnts_spec().len() ==> simplified(final(ca)@[(#[trigger] old(self).learnts_spec()[k])@ as int], assignment),
    {
        let ghost ca0 = ca@;
        let mut i: usize = 0;
        while i < self.clauses.len()
            invariant
                i <= self.clauses@.len(),
                self.clauses@ == old(self).clauses@,
                self.learnts@ == old(self).learnts@,
                ca@.len() == ca0.len(),
                assignment.num_vars() == assignment.data().len(),
                arena_wf(ca@, assignment.num_vars()),
                refs_in(self.clauses@, ca@.len()),
                refs_in(self.learnts@, ca@.len()),
                forall|c: int|
                    0 <= c < ca0.len() ==> {
                        &&& (#[trigger] ca@[c])@ == ca0[c]@ || lit_value(assignment.values(), ca0[c]@[0]) == LBool::Undef
                        &&& shrunk(ca@[c]@, ca0[c]@, assignment)
                        &&& ca@[c]@[0] == ca0[c]@[0]
                        &&& ca@[c].learnt_spec() == ca0[c].learnt_spec()
                        &&& ca0[c].deleted_spec() ==> ca@[c].deleted_spec() && ca@[c]@ == ca0[c]@
                        &&& ca@[c].deleted_spec() && !ca0[c].deleted_spec() ==> exists|j: int|
                            0 <= j < ca@[c]@.len() && assignment.fixed_spec(#[trigger] ca@[c]@[j]) == LBool::True
                    },
                forall|k: int| 0 <= k < i ==> simplified(ca@[(#[trigger] self.clauses@[k])@ as int], assignment),
            decreases self.clauses@.len() - i,
        {
            let cref = self.clauses[i];
            simplify_clause(cref, assignment, ca, Ghost(ca0));
            i = i + 1;
        }
        let mut i: usize = 0;
        while i < self.learnts.len()
            invariant
                i <= self.learnts@.len(),
                self.clauses@ == old(self).clauses@,
                self.learnts@ == old(self).learnts@,
                ca@.len() == ca0.len(),
                assignment.num_vars() == assignment.data().len(),
                arena_wf(ca@, assignment.num_vars()),
                refs_in(self.clauses@, ca@.len()),
                refs_in(self.learnts@, ca@.len()),
                forall|c: int|
                    0 <= c < ca0.len() ==> {
                        &&& (#[trigger] ca@[c])@ == ca0[c]@ || lit_value(assignment.values(), ca0[c]@[0]) == LBool::Undef
                        &&& shrunk(ca@[c]@, ca0[c]@, assignment)
                        &&& ca@[c]@[0] == ca0[c]@[0]
                        &&& ca@[c].learnt_spec() == ca0[c].learnt_spec()
                        &&& ca0[c].deleted_spec() ==> ca@[c].deleted_spec() && ca@[c]@ == ca0[c]@
                        &&& ca@[c].deleted_spec() && !ca0[c].deleted_spec() ==> exists|j: int|
                            0 <= j < ca@[c]@.len() && assignment.fixed_spec(#[trigger] ca@[c]@[j]) == LBool::True
                    },
                forall|k: int| 0 <= k < self.clauses@.len() ==> simplified(ca@[(#[trigger] self.clauses@[k])@ as int], assignment),
                forall|k: int| 0 <= k < i ==> simplified(ca@[(#[trigger] self.learnts@[k])@ as int], assignment),
            decreases self.learnts@.len() - i,
        {
            let cref = self.learnts[i];
            simplify_clause(cref, assignment, ca, Ghost(ca0));
            i = i + 1;
        }
    }

    /// Keeps, in the order of `sorted`, the learnt clauses that are not deleted and are not
    /// removable; a clause is removable when `candidate` marks it, it has more than two
    /// literals and it is not the reason of its first literal's variable. Removable clauses
    /// are freed. The learnt list becomes the kept clauses.
    pub fn retain_learnts(
        &mut self,
        sorted: &[ClauseRef],
        candidate: &[bool],
        assignment: &Assignment,
        ca: &mut ClauseAllocator,
    )
        requires
            sorted@.len() == candidate@.len(),
            refs_in(sorted@, old(ca)@.len()),
            arena_wf(old(ca)@, assignment.num_vars()),
            assignment.num_vars() == assignment.data().len(),
            forall|a: int, b: int| 0 <= a < b < sorted@.len() ==> sorted@[a] != sorted@[b],
        ensures
            final(self).clauses_spec() == old(self).clauses_spec(),
            final(self).learnts_spec() == kept_learnts(sorted@, candidate@, old(ca)@, assignment),
            final(ca)@.len() == old(ca)@.len(),
            forall|c: int| 0 <= c < old(ca)@.len() ==> (#[trigger] final(ca)@[c])@ == old(ca)@[c]@
                && final(ca)@[c].learnt_spec() == old(ca)@[c].learnt_spec()
                && (final(ca)@[c].deleted_spec() <==> (old(ca)@[c].deleted_spec() || exists|k: int| 0 <= k < sorted@.len()
                    && (#[trigger] sorted@[k])@ == c && removable(sorted@[k], candidate@[k], old(ca)@, assignment))),
    {
        let ghost ca0 = ca@;
        let mut kept: Vec<ClauseRef> = Vec::new();
        let mut i: usize = 0;
        while i < sorted.len()
            invariant
                i <= sorted@.len(),
                sorted@.len() == candidate@.len(),
                refs_in(sorted@, ca0.len()),
                arena_wf(ca0, assignment.num_vars()),
                assignment.num_vars() == assignment.data().len(),
                forall|a: int, b: int| 0 <= a < b < sorted@.len() ==> sorted@[a] != sorted@[b],
                ca@.len() == ca0.len(),
                self.clauses@ == old(self).clauses@,
                kept@ == kept_learnts(sorted@.take(i as int), candidate@.take(i as int), ca0, assignment),
                forall|c: int| 0 <= c < ca0.len() ==> (#[trigger] ca@[c])@ == ca0[c]@
                    && ca@[c].learnt_spec() == ca0[c].learnt_spec()
                    && (ca@[c].deleted_spec() <==> (ca0[c].deleted_spec() || exists|k: int| 0 <= k < i
                        && (#[trigger] sorted@[k])@ == c && removable(sorted@[k], candidate@[k], ca0, assignment))),
            decreases sorted@.len() - i,
        {
            let cref = sorted[i];
            let ghost c = cref@ as int;
            proof {
                assert(sorted@.take(i + 1).drop_last() =~= sorted@.take(i as int));
                assert(candidate@.take(i + 1).drop_last() =~= candidate@.take(i as int));
                assert forall|k: int| 0 <= k < i implies (#[trigger] sorted@[k])@ != c by {
                    if sorted@[k]@ == c {
                        ClauseRef::lemma_view_injective(sorted@[k], cref);
                    }
                }
            }
            let deleted = ca.clause(cref).is_deleted();
            if deleted {
                // drop it
            } else {
                let len = ca.clause(cref).len();
                let first = ca.clause(cref).get(0);
                let locked = match assignment.reason(first.var()) {
                    Some(r) => r == cref,
                    None => false,
                };
                if len > 2 && !locked && candidate[i] {
                    ca.free(cref);
                } else {
                    kept.push(cref);
                }
            }
            proof {
                assert forall|c2: int| 0 <= c2 < ca0.len() implies (#[trigger] ca@[c2])@ == ca0[c2]@
                    && ca@[c2].learnt_spec() == ca0[c2].learnt_spec()
                    && (ca@[c2].deleted_spec() <==> (ca0[c2].deleted_spec() || exists|k: int| 0 <= k < i + 1
                        && (#[trigger] sorted@[k])@ == c2 && removable(sorted@[k], candidate@[k], ca0, assignment))) by {
                    if c2 == c {
                        if removable(sorted@[i as int], candidate@[i as int], ca0, assignment) {
                            assert(sorted@[i as int]@ == c2);
                        }
                    } else {
                        if exists|k: int| 0 <= k < i + 1 && (#[trigger] sorted@[k])@ == c2 && removable(sorted@[k], candidate@[k], ca0, assignment) {
                            let k = choose|k: int| 0 <= k < i + 1 && (#[trigger] sorted@[k])@ == c2 && removable(sorted@[k], candidate@[k], ca0, assignment);
                            assert(k < i);
                        }
                    }
                }
            }
            i = i + 1;
        }
        proof {
            assert(sorted@.take(sorted@.len() as int) =~= sorted@);
            assert(candidate@.take(candidate@.len() as int) =~= candidate@);
        }
        self.learnts = kept;
    }
}

/// Whether learnt clause `cref` is removed by a reduction: it is not deleted yet, `candidate`
/// marks it, it has more than two literals, and it is not the reason of its first literal's variable.
pub open spec fn removable(cref: ClauseRef, candidate: bool, ca: Seq<crate::clause::Clause>, assignment: &Assignment) -> bool {
    let cl = ca[cref@ as int];
    &&& !cl.deleted_spec()
    &&& candidate
    &&& cl@.len() > 2
    &&& assignment.data()[cl@[0].var()@ as int].reason_spec() != Some(cref)
}

/// The learnt clauses kept by a reduction, in order.
pub open spec fn kept_learnts(sorted: Seq<ClauseRef>, candidate: Seq<bool>, ca: Seq<crate::clause::Clause>, assignment: &Assignment) -> Seq<ClauseRef>
    decreases sorted.len(),
{
    if sorted.len() == 0 {
        Seq::empty()
    } else {
        let rest = kept_learnts(sorted.drop_last(), candidate.drop_last(), ca, assignment);
        let cref = sorted.last();
        if ca[cref@ as int].deleted_spec() || removable(cref, candidate.last(), ca, assignment) {
            rest
        } else {
            rest.push(cref)
        }
    }
}

/// Simplifies the clause `cref` (see [`ClauseDatabase::simplify`]).
fn simplify_clause(cref: ClauseRef, assignment: &Assignment, ca: &mut ClauseAllocator, Ghost(ca0): Ghost<Seq<crate::clause::Clause>>)
    requires
        cref@ < old(ca)@.len(),
        old(ca)@.len() == ca0.len(),
        arena_wf(old(ca)@, assignment.num_vars()),
        assignment.num_vars() == assignment.data().len(),
        forall|c: int|
            0 <= c < ca0.len() ==> {
                &&& (#[trigger] old(ca)@[c])@ == ca0[c]@ || lit_value(assignment.values(), ca0[c]@[0]) == LBool::Undef
                &&& shrunk(old(ca)@[c]@, ca0[c]@, assignment)
                &&& old(ca)@[c]@[0] == ca0[c]@[0]
                &&& old(ca)@[c].learnt_spec() == ca0[c].learnt_spec()
                &&& ca0[c].deleted_spec() ==> old(ca)@[c].deleted_spec() && old(ca)@[c]@ == ca0[c]@
                &&& old(ca)@[c].deleted_spec() && !ca0[c].deleted_spec() ==> exists|j: int|
                    0 <= j < old(ca)@[c]@.len() && assignment.fixed_spec(#[trigger] old(ca)@[c]@[j]) == LBool::True
            },
    ensures
        final(ca)@.len() == old(ca)@.len(),
        arena_wf(final(ca)@, assignment.num_vars()),
        forall|c: int| 0 <= c < old(ca)@.len() && c != cref@ ==> final(ca)@[c] == old(ca)@[c],
        simplified(final(ca)@[cref@ as int], assignment),
        forall|c: int|
            0 <= c < ca0.len() ==> {
                &&& (#[trigger] final(ca)@[c])@ == ca0[c]@ || lit_value(assignment.values(), ca0[c]@[0]) == LBool::Undef
                &&& shrunk(final(ca)@[c]@, ca0[c]@, assignment)
                &&& final(ca)@[c]@[0] == ca0[c]@[0]
                &&& final(ca)@[c].learnt_spec() == ca0[c].learnt_spec()
                &&& ca0[c].deleted_spec() ==> final(ca)@[c].deleted_spec() && final(ca)@[c]@ == ca0[c]@
                &&& final(ca)@[c].deleted_spec() && !ca0[c].deleted_spec() ==> exists|j: int|
                    0 <= j < final(ca)@[c]@.len() && assignment.fixed_spec(#[trigger] final(ca)@[c]@[j]) == LBool::True
            },
{
    let ghost c = cref@ as int;
    let clause = ca.clause_mut(cref);
    if clause.is_deleted() {
        return;
    }
    match clause.contains_fixed_literal(assignment) {
        LBool::True => {
            clause.mark_deleted();
        },
        LBool::False => {
            let a = clause.get(0);
            let b = clause.get(1);
            if assignment.value(a) == LBool::Undef && assignment.value(b) == LBool::Undef {
                let ghost before = clause@;
                clause.remove_falsified_literals(assignment);
                proof {
                    assert(before == old(ca)@[c]@);
                    assert(shrunk(before, ca0[c]@, assignment));
                    assert forall|l: Lit| #[trigger] clause@.contains(l) <==> (ca0[c]@.contains(l) && assignment.fixed_spec(l) != LBool::False) by {
                        if before != ca0[c]@ {
                            assert(before.contains(l) <==> (ca0[c]@.contains(l) && assignment.fixed_spec(l) != LBool::False));
                        }
                    }
                    assert forall|k: int| 0 <= k < clause@.len() implies assignment.fixed_spec(#[trigger] clause@[k]) != LBool::True by {
                        assert(clause@.contains(clause@[k]));
                        assert(before.contains(clause@[k]));
                        let j = choose|j: int| 0 <= j < before.len() && before[j] == clause@[k];
                        assert(assignment.fixed_spec(before[j]) != LBool::True);
                    }
                }
            }
        },
        LBool::Undef => {},
    }
}

} // verus!
