use vstd::prelude::*;

use crate::clause::Clause;
use crate::cref::ClauseRef;
use crate::lit::Lit;

verus! {

/// Owner of every clause; a clause is addressed by its [`ClauseRef`].
#[derive(Debug)]
pub struct ClauseAllocator {
    arena: Vec<Clause>,
}

impl View for ClauseAllocator {
    type V = Seq<Clause>;

    /// The clauses, in allocation order.
    closed spec fn view(&self) -> Seq<Clause> {
        self.arena@
    }
}

impl ClauseAllocator {
    /// An allocator holding no clause.
    pub fn new() -> (res: Self)
        ensures
            res@ == Seq::<Clause>::empty(),
    {
        ClauseAllocator { arena: Vec::new() }
    }

    /// Number of clauses ever allocated.
    pub fn len(&self) -> (res: usize)
        ensures
            res == self@.len(),
    {
        self.arena.len()
    }

    /// The clause `cref` refers to.
    pub fn clause(&self, cref: ClauseRef) -> (res: &Clause)
        requires
            cref@ < self@.len(),
        ensures
            *res == self@[cref@ as int],
    {
        &self.arena[cref.index()]
    }

    /// Stores a new clause over `lits` and returns its reference.
    pub fn allocate(&mut self, lits: Vec<Lit>, learnt: bool) -> (res: ClauseRef)
        ensures
            res@ == old(self)@.len(),
            final(self)@.len() == old(self)@.len() + 1,
            forall|c: int| 0 <= c < old(self)@.len() ==> final(self)@[c] == old(self)@[c],
            final(self)@[res@ as int]@ == lits@,
            final(self)@[res@ as int].learnt_spec() == learnt,
            !final(self)@[res@ as int].deleted_spec(),
    {
        let clause = Clause::new(lits, learnt);
        let cref = ClauseRef::new(self.arena.len());
        self.arena.push(clause);
        cref
    }

    /// Marks clause `cref`, which must not be deleted yet, as deleted.
    pub fn free(&mut self, cref: ClauseRef)
        requires
            cref@ < old(self)@.len(),
            !old(self)@[cref@ as int].deleted_spec(),
        ensures
            final(self)@.len() == old(self)@.len(),
            forall|c: int| 0 <= c < old(self)@.len() && c != cref@ ==> final(self)@[c] == old(self)@[c],
            final(self)@[cref@ as int]@ == old(self)@[cref@ as int]@,
            final(self)@[cref@ as int].learnt_spec() == old(self)@[cref@ as int].learnt_spec(),
            final(self)@[cref@ as int].deleted_spec(),
    {
        let c = &mut self.arena[cref.index()];
        c.mark_deleted();
    }

    /// Replaces the literal at position `i` of clause `cref`.
    pub fn set_lit(&mut self, cref: ClauseRef, i: usize, lit: Lit)
        requires
            cref@ < old(self)@.len(),
            i < old(self)@[cref@ as int]@.len(),
        ensures
            final(self)@.len() == old(self)@.len(),
            forall|c: int| 0 <= c < old(self)@.len() && c != cref@ ==> final(self)@[c] == old(self)@[c],
            final(self)@[cref@ as int]@ == old(self)@[cref@ as int]@.update(i as int, lit),
            final(self)@[cref@ as int].learnt_spec() == old(self)@[cref@ as int].learnt_spec(),
            final(self)@[cref@ as int].deleted_spec() == old(self)@[cref@ as int].deleted_spec(),
    {
        let c = &mut self.arena[cref.index()];
        c.set(i, lit);
    }

    /// Gives mutable access to clause `cref`.
    pub fn clause_mut(&mut self, cref: ClauseRef) -> (res: &mut Clause)
        requires
            cref@ < old(self)@.len(),
        ensures
            *res == old(self)@[cref@ as int],
            final(self)@ == old(self)@.update(cref@ as int, *final(res)),
    {
        &mut self.arena[cref.index()]
    }
}

} // verus!
