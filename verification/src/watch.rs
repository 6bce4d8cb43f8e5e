use vstd::prelude::*;

use crate::cref::ClauseRef;
use crate::idx::IdxVec;
use crate::lit::Lit;
use crate::var::Var;

verus! {

/// A watch on a clause: the clause and a literal whose truth lets the clause be skipped.
#[derive(Debug, Copy, Clone)]
pub struct Watcher {
    pub(crate) cref: ClauseRef,
    pub(crate) blocker: Lit,
}

impl Watcher {
    /// A watch on `cref` with blocker `blocker`.
    pub fn new(cref: ClauseRef, blocker: Lit) -> (res: Self)
        ensures
            res.cref_spec() == cref,
            res.blocker_spec() == blocker,
    {
        Watcher { cref, blocker }
    }

    /// The watched clause.
    pub closed spec fn cref_spec(self) -> ClauseRef {
        self.cref
    }

    /// The blocker literal.
    pub closed spec fn blocker_spec(self) -> Lit {
        self.blocker
    }

    /// The watched clause.
    pub fn cref(&self) -> (res: ClauseRef)
        ensures
            res == self.cref_spec(),
    {
        self.cref
    }

    /// The blocker literal.
    pub fn blocker(&self) -> (res: Lit)
        ensures
            res == self.blocker_spec(),
    {
        self.blocker
    }
}

/// For every literal, the watches of the clauses that watch it.
#[derive(Debug)]
pub struct WatchList {
    watchlist: IdxVec<Lit, Vec<Watcher>>,
}

impl WatchList {
    /// The watches of each literal, indexed by literal code.
    pub closed spec fn lists(&self) -> Seq<Seq<Watcher>> {
        self.watchlist@.map_values(|v: Vec<Watcher>| v@)
    }

    /// A watch list with no literal.
    pub fn new() -> (res: Self)
        ensures
            res.lists() == Seq::<Seq<Watcher>>::empty(),
    {
        let res = WatchList { watchlist: IdxVec::new() };
        proof {
            assert(res.lists() =~= Seq::<Seq<Watcher>>::empty());
        }
        res
    }

    /// Makes room for both literals of `var`, with no watch; existing lists are kept.
    pub fn init(&mut self, var: Var)
        requires
            var@ < 0x7fff_ffff,
            old(self).lists().len() == 2 * var@,
        ensures
            final(self).lists() == old(self).lists().push(Seq::empty()).push(Seq::empty()),
    {
        let neg = Lit::new(var, true);
        proof {
            crate::lit::lemma_lit_roundtrip(var, true);
            crate::lit::lemma_lit_roundtrip(var, false);
            lemma_code_of(var@);
        }
        let ghost old_lists = self.watchlist@;
        self.watchlist.init_by(&Lit::new(var, false), || -> (r: Vec<Watcher>)
            ensures
                r@ == Seq::<Watcher>::empty(),
            { Vec::new() });
        self.watchlist.init_by(&neg, || -> (r: Vec<Watcher>)
            ensures
                r@ == Seq::<Watcher>::empty(),
            { Vec::new() });
        proof {
            assert(self.lists() =~= old(self).lists().push(Seq::empty()).push(Seq::empty()));
        }
    }

    /// Number of literal slots.
    pub fn len(&self) -> (res: usize)
        ensures
            res == self.lists().len(),
    {
        self.watchlist.len()
    }

    /// Adds `watch` to the watches of `lit`.
    pub fn insert(&mut self, lit: Lit, watch: Watcher)
        requires
            (lit@ as int) < old(self).lists().len(),
        ensures
            final(self).lists() == old(self).lists().update(lit@ as int, old(self).lists()[lit@ as int].push(watch)),
    {
        let mut list = self.take(lit);
        list.push(watch);
        self.put(lit, list);
    }

    /// The watches of `lit`, for update.
    pub fn lookup(&mut self, lit: Lit) -> (res: &mut Vec<Watcher>)
        requires
            (lit@ as int) < old(self).lists().len(),
        ensures
            res@ == old(self).lists()[lit@ as int],
            final(self).lists() == old(self).lists().update(lit@ as int, final(res)@),
    {
        self.watchlist.get_mut(&lit)
    }

    /// Removes and returns the watches of `lit`, leaving none.
    pub fn take(&mut self, lit: Lit) -> (res: Vec<Watcher>)
        requires
            (lit@ as int) < old(self).lists().len(),
        ensures
            res@ == old(self).lists()[lit@ as int],
            final(self).lists() == old(self).lists().update(lit@ as int, Seq::empty()),
    {
        let mut empty: Vec<Watcher> = Vec::new();
        let res = self.watchlist.replace(&lit, empty);
        proof {
            assert(self.lists() =~= old(self).lists().update(lit@ as int, Seq::empty()));
        }
        res
    }

    /// Sets the watches of `lit`.
    pub fn put(&mut self, lit: Lit, list: Vec<Watcher>)
        requires
            (lit@ as int) < old(self).lists().len(),
        ensures
            final(self).lists() == old(self).lists().update(lit@ as int, list@),
    {
        let _ = self.watchlist.replace(&lit, list);
        proof {
            assert(self.lists() =~= old(self).lists().update(lit@ as int, list@));
        }
    }
}

proof fn lemma_code_of(v: u32)
    requires
        v < 0x7fff_ffff,
    ensures
        crate::lit::lit_code(v, false) == 2 * v,
        crate::lit::lit_code(v, true) == 2 * v + 1,
{
    assert(((v << 1u32) | 0u32) == 2 * v && ((v << 1u32) | 1u32) == 2 * v + 1) by (bit_vector)
        requires
            v < 0x7fff_ffffu32,
    ;
}

} // verus!
