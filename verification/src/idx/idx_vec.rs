use std::marker::PhantomData;

use vstd::prelude::*;

use super::Idx;

verus! {

/// A vector indexed by keys (variables or literals): the value of key `k`
/// lives at position `k.idx()`.
#[derive(Debug)]
pub struct IdxVec<K: Idx, V> {
    vec: Vec<V>,
    phantom: PhantomData<K>,
}

impl<K: Idx, V> View for IdxVec<K, V> {
    type V = Seq<V>;

    closed spec fn view(&self) -> Seq<V> {
        self.vec@
    }
}

/// The length a vector reaches when it is extended to hold position `i`.
pub open spec fn extended_len(len: nat, i: nat) -> nat {
    if i + 1 > len {
        i + 1
    } else {
        len
    }
}

impl<K: Idx, V> IdxVec<K, V> {
    /// The value of key `k`, for update.
    pub fn get_mut(&mut self, k: &K) -> (res: &mut V)
        requires
            k.spec_idx() < old(self)@.len(),
        ensures
            *res == old(self)@[k.spec_idx() as int],
            final(self)@ == old(self)@.update(k.spec_idx() as int, *final(res)),
    {
        let i = k.idx();
        &mut self.vec[i]
    }

    /// An empty vector.
    pub fn new() -> (res: Self)
        ensures
            res@ == Seq::<V>::empty(),
    {
        IdxVec { vec: Vec::new(), phantom: PhantomData }
    }

    /// A vector holding the given values (position `i` holds `vec[i]`).
    pub fn from_vec(vec: Vec<V>) -> (res: Self)
        ensures
            res@ == vec@,
    {
        IdxVec { vec, phantom: PhantomData }
    }

    /// Number of positions.
    pub fn len(&self) -> (res: usize)
        ensures
            res == self@.len(),
    {
        self.vec.len()
    }

    /// Extends the vector with values made by `f` until it holds position `k.idx()`.
    /// Existing values are kept.
    pub fn init_by<F>(&mut self, k: &K, f: F)
        where
            F: Fn() -> V,
        requires
            k.spec_idx() + 1 <= usize::MAX,
            f.requires(()),
        ensures
            final(self)@.len() == extended_len(old(self)@.len(), k.spec_idx()),
            forall|i: int| 0 <= i < old(self)@.len() ==> final(self)@[i] == old(self)@[i],
            forall|i: int|
                old(self)@.len() <= i < final(self)@.len() ==> f.ensures((), #[trigger] final(self)@[i]),
    {
        let new_len = k.idx() + 1;
        let ghost old_vec = self.vec@;
        while self.vec.len() < new_len
            invariant
                f.requires(()),
                self.vec@.len() <= extended_len(old_vec.len(), k.spec_idx()),
                self.vec@.len() >= old_vec.len(),
                new_len == k.spec_idx() + 1,
                forall|i: int| 0 <= i < old_vec.len() ==> self.vec@[i] == old_vec[i],
                forall|i: int|
                    old_vec.len() <= i < self.vec@.len() ==> f.ensures((), #[trigger] self.vec@[i]),
            decreases new_len - self.vec@.len(),
        {
            let v = f();
            self.vec.push(v);
        }
    }

    /// Extends the vector with default values until it holds position `k.idx()`.
    /// Existing values are kept.
    pub fn init(&mut self, k: &K)
        where
            V: Default,
        requires
            k.spec_idx() + 1 <= usize::MAX,
        ensures
            final(self)@.len() == extended_len(old(self)@.len(), k.spec_idx()),
            forall|i: int| 0 <= i < old(self)@.len() ==> final(self)@[i] == old(self)@[i],
            forall|i: int|
                old(self)@.len() <= i < final(self)@.len() ==> call_ensures(V::default, (), #[trigger] final(self)@[i]),
    {
        let new_len = k.idx() + 1;
        let ghost old_vec = self.vec@;
        while self.vec.len() < new_len
            invariant
                self.vec@.len() <= extended_len(old_vec.len(), k.spec_idx()),
                self.vec@.len() >= old_vec.len(),
                new_len == k.spec_idx() + 1,
                forall|i: int| 0 <= i < old_vec.len() ==> self.vec@[i] == old_vec[i],
                forall|i: int|
                    old_vec.len() <= i < self.vec@.len() ==> call_ensures(V::default, (), #[trigger] self.vec@[i]),
            decreases new_len - self.vec@.len(),
        {
            let v = V::default();
            self.vec.push(v);
        }
    }

    /// Whether position `k.idx()` exists.
    pub fn contains_key(&self, k: &K) -> (res: bool)
        ensures
            res == (k.spec_idx() < self@.len()),
    {
        k.idx() < self.vec.len()
    }

    /// Removes every value.
    pub fn clear(&mut self)
        ensures
            final(self)@ == Seq::<V>::empty(),
    {
        self.vec.clear();
    }

    /// The value at `k.idx()`, if that position exists.
    pub fn get(&self, k: &K) -> (res: Option<&V>)
        ensures
            k.spec_idx() < self@.len() ==> res == Some(&self@[k.spec_idx() as int]),
            k.spec_idx() >= self@.len() ==> res.is_none(),
    {
        let i = k.idx();
        if i < self.vec.len() {
            Some(&self.vec[i])
        } else {
            None
        }
    }

    /// The value at `k.idx()`; the position must exist.
    pub fn at(&self, k: &K) -> (res: &V)
        requires
            k.spec_idx() < self@.len(),
        ensures
            *res == self@[k.spec_idx() as int],
    {
        &self.vec[k.idx()]
    }

    /// Replaces the value at `k.idx()`; the position must exist.
    pub fn set(&mut self, k: &K, v: V)
        requires
            k.spec_idx() < old(self)@.len(),
        ensures
            final(self)@ == old(self)@.update(k.spec_idx() as int, v),
    {
        let i = k.idx();
        self.vec.set(i, v);
    }

    /// Replaces the value at `k.idx()` and returns the previous one; the position must exist.
    pub fn replace(&mut self, k: &K, v: V) -> (res: V)
        requires
            k.spec_idx() < old(self)@.len(),
        ensures
            res == old(self)@[k.spec_idx() as int],
            final(self)@ == old(self)@.update(k.spec_idx() as int, v),
    {
        let i = k.idx();
        let mut v = v;
        std::mem::swap(&mut self.vec[i], &mut v);
        v
    }

    /// Appends a value at the next position.
    pub fn push(&mut self, v: V)
        ensures
            final(self)@ == old(self)@.push(v),
    {
        self.vec.push(v);
    }

    /// The values, in position order.
    pub fn as_slice(&self) -> (res: &[V])
        ensures
            res@ == self@,
    {
        self.vec.as_slice()
    }
}

} // verus!
