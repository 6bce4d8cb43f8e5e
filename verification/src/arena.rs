use vstd::prelude::*;

verus! {

/// Identifier of an item in an [`Arena`]: ids are 1-based, `0` means "no item".
pub type Id = u32;

/// A growable store of items addressed by 1-based ids.
#[derive(Debug)]
pub struct Arena<T> {
    items: Vec<T>,
}

impl<T> View for Arena<T> {
    type V = Seq<T>;

    /// The items, in allocation order: id `i` refers to `self@[i - 1]`.
    closed spec fn view(&self) -> Seq<T> {
        self.items@
    }
}

impl<T> Arena<T> {
    /// An empty arena.
    pub fn new() -> (res: Self)
        ensures
            res@ == Seq::<T>::empty(),
    {
        Arena { items: Vec::new() }
    }

    /// The item with id `index`, for update.
    pub fn get_mut(&mut self, index: Id) -> (res: &mut T)
        requires
            1 <= index <= old(self)@.len(),
        ensures
            *res == old(self)@[index - 1],
            final(self)@ == old(self)@.update(index - 1, *final(res)),
    {
        &mut self.items[(index - 1) as usize]
    }

    /// Stores `item` and returns its id.
    pub fn allocate(&mut self, item: T) -> (res: Id)
        requires
            old(self)@.len() < u32::MAX,
        ensures
            res == old(self)@.len() + 1,
            final(self)@ == old(self)@.push(item),
    {
        let id = self.next_id();
        self.items.push(item);
        id
    }

    /// Stores the item that `f` makes from the id it will get, and returns that id.
    pub fn alloc_with_id<F>(&mut self, f: F) -> (res: Id)
        where
            F: FnOnce(Id) -> T,
        requires
            old(self)@.len() < u32::MAX,
            f.requires(((old(self)@.len() + 1) as Id,)),
        ensures
            res == old(self)@.len() + 1,
            final(self)@.len() == old(self)@.len() + 1,
            final(self)@.drop_last() == old(self)@,
            f.ensures((res,), final(self)@.last()),
    {
        let id = self.next_id();
        let item = f(id);
        self.items.push(item);
        proof {
            assert(final(self)@.drop_last() =~= old(self)@);
        }
        id
    }

    /// The id that the next allocation will get.
    pub fn next_id(&self) -> (res: Id)
        requires
            self@.len() < u32::MAX,
        ensures
            res == self@.len() + 1,
    {
        self.items.len() as Id + 1
    }

    /// The item with id `index`.
    pub fn get(&self, index: Id) -> (res: &T)
        requires
            0 < index <= self@.len(),
        ensures
            *res == self@[index - 1],
    {
        &self.items[index as usize - 1]
    }

    /// Replaces the item with id `index`.
    pub fn set(&mut self, index: Id, item: T)
        requires
            0 < index <= old(self)@.len(),
        ensures
            final(self)@ == old(self)@.update(index - 1, item),
    {
        self.items.set(index as usize - 1, item);
    }

    /// Number of items.
    pub fn len(&self) -> (res: usize)
        ensures
            res == self@.len(),
    {
        self.items.len()
    }

    /// Whether there is no item.
    pub fn is_empty(&self) -> (res: bool)
        ensures
            res == (self@.len() == 0),
    {
        self.items.len() == 0
    }

    /// The items, in allocation order.
    pub fn as_slice(&self) -> (res: &[T])
        ensures
            res@ == self@,
    {
        self.items.as_slice()
    }
}

} // verus!
