use vstd::prelude::*;

verus! {

/// A stable name for a value stored in an [`Arena`]: the slot it lives in and
/// the generation that slot had when the value was stored.
#[derive(Clone, Copy, PartialEq, Eq, Structural, Debug, Hash)]
pub struct Handle {
    index: usize,
    generation: u32,
}

impl Handle {
    pub closed spec fn spec_index(&self) -> usize {
        self.index
    }

    pub closed spec fn spec_generation(&self) -> u32 {
        self.generation
    }

    /// The handle for slot `index` at `generation`.
    pub fn new(index: usize, generation: u32) -> (r: Self)
        ensures
            r.index() == index,
            r.generation() == generation,
    {
        Handle { index, generation }
    }

    /// The slot the handle names.
    #[verifier::when_used_as_spec(spec_index)]
    pub fn index(&self) -> (r: usize)
        ensures
            r == self.index(),
    {
        self.index
    }

    /// The generation the slot had when the handle was issued.
    #[verifier::when_used_as_spec(spec_generation)]
    pub fn generation(&self) -> (r: u32)
        ensures
            r == self.generation(),
    {
        self.generation
    }

    /// Two handles are equal exactly when their indices and generations are.
    pub proof fn lemma_eq(a: Handle, b: Handle)
        ensures
            (a == b) <==> (a.index() == b.index() && a.generation() == b.generation()),
    {
    }
}

struct Slot<T> {
    value: Option<T>,
    generation: u32,
}

/// A growable pool of slots. Each slot holds an optional value and a
/// generation counter; values are reached only through [`Handle`]s, and a slot
/// whose value is freed goes onto a free list to be reused.
pub struct Arena<T> {
    slots: Vec<Slot<T>>,
    free_list: Vec<usize>,
}

/// The generation of a slot that has never been freed.
pub const INITIAL_GENERATION: u32 = 0;

impl<T> View for Arena<T> {
    /// Slot by slot: the value held, if any, and the slot's generation.
    type V = Seq<(Option<T>, u32)>;

    closed spec fn view(&self) -> Seq<(Option<T>, u32)> {
        self.slots@.map_values(|s: Slot<T>| (s.value, s.generation))
    }
}

impl<T> Arena<T> {
    /// The indices of the slots waiting to be reused, the next one to be
    /// taken last.
    pub closed spec fn free_indices(&self) -> Seq<usize> {
        self.free_list@
    }

    /// Every index on the free list names an empty slot, and none is listed
    /// twice.
    pub open spec fn wf(&self) -> bool {
        &&& forall|k: int|
            0 <= k < self.free_indices().len() ==> {
                &&& #[trigger] self.free_indices()[k] < self@.len()
                &&& self@[self.free_indices()[k] as int].0 is None
            }
        &&& self.free_indices().no_duplicates()
    }

    /// The handle names a slot in bounds whose generation it carries and
    /// which holds a value.
    pub open spec fn spec_is_alive(&self, handle: Handle) -> bool {
        &&& handle.index() < self@.len()
        &&& self@[handle.index() as int].1 == handle.generation()
        &&& self@[handle.index() as int].0 is Some
    }

    /// The value in the slot that the handle names.
    pub open spec fn value_of(&self, handle: Handle) -> T {
        self@[handle.index() as int].0.unwrap()
    }

    /// An empty arena: no slots and an empty free list.
    pub fn new() -> (r: Self)
        ensures
            r.wf(),
            r@ == Seq::<(Option<T>, u32)>::empty(),
            r.free_indices() == Seq::<usize>::empty(),
    {
        let r = Arena { slots: Vec::new(), free_list: Vec::new() };
        assert(r@ =~= Seq::<(Option<T>, u32)>::empty());
        r
    }

    /// The value that a live handle names; `None` for a stale or
    /// out-of-bounds handle.
    pub fn get(&self, handle: Handle) -> (r: Option<&T>)
        ensures
            r.is_some() == self.spec_is_alive(handle),
            r.is_some() ==> *r.unwrap() == self.value_of(handle),
    {
        if handle.index >= self.slots.len() {
            return None;
        }
        let slot = &self.slots[handle.index];
        if slot.generation != handle.generation {
            return None;
        }
        slot.value.as_ref()
    }

    /// Mutable access to the value that a live handle names; `None` for a
    /// stale or out-of-bounds handle. Only that value can change.
    pub fn get_mut(&mut self, handle: Handle) -> (r: Option<&mut T>)
        ensures
            r.is_some() == old(self).spec_is_alive(handle),
            r.is_none() ==> final(self)@ == old(self)@ && final(self).free_indices()
                == old(self).free_indices(),
            r.is_some() ==> {
                &&& *r.unwrap() == old(self).value_of(handle)
                &&& final(self)@ == old(self)@.update(
                    handle.index() as int,
                    (Some(*final(r.unwrap())), handle.generation()),
                )
                &&& final(self).free_indices() == old(self).free_indices()
                &&& (old(self).wf() ==> final(self).wf())
            },
    {
        if handle.index >= self.slots.len() {
            return None;
        }
        let slot = &mut self.slots[handle.index];
        if slot.generation != handle.generation {
            return None;
        }
        slot.value.as_mut()
    }

    /// `after` is this arena once `value` has been stored under the handle
    /// `r`: the most recently freed slot is reused at the generation it has
    /// now, or, with an empty free list, a new slot is appended at the initial
    /// generation.
    pub open spec fn spec_allocate(self, after: Self, value: T, r: Handle) -> bool {
        &&& self.free_indices().len() == 0 ==> {
            &&& r.index() == self@.len()
            &&& r.generation() == INITIAL_GENERATION
            &&& after@ == self@.push((Some(value), INITIAL_GENERATION))
            &&& after.free_indices() == self.free_indices()
        }
        &&& self.free_indices().len() > 0 ==> {
            &&& r.index() == self.free_indices().last()
            &&& r.index() < self@.len()
            &&& self@[r.index() as int].0 is None
            &&& r.generation() == self@[r.index() as int].1
            &&& after@ == self@.update(r.index() as int, (Some(value), r.generation()))
            &&& after.free_indices() == self.free_indices().drop_last()
        }
    }

    /// `after` is this arena once `free` was asked to release `handle` and
    /// returned `r`: the value when the handle was live, with the slot emptied,
    /// moved to the next generation and put on the free list; otherwise `None`
    /// and no change.
    pub open spec fn spec_free(self, after: Self, handle: Handle, r: Option<T>) -> bool {
        &&& r.is_some() == self.spec_is_alive(handle)
        &&& r.is_none() ==> after@ == self@ && after.free_indices() == self.free_indices()
        &&& r.is_some() ==> {
            &&& r.unwrap() == self.value_of(handle)
            &&& after@ == self@.update(
                handle.index() as int,
                (None, (handle.generation() + 1) as u32),
            )
            &&& after.free_indices() == self.free_indices().push(handle.index())
        }
    }

    /// Stores `value` and returns its handle.
    pub fn allocate(&mut self, value: T) -> (r: Handle)
        requires
            old(self).wf(),
        ensures
            final(self).wf(),
            final(self).spec_is_alive(r),
            old(self).spec_allocate(*final(self), value, r),
    {
        if let Some(index) = self.free_list.pop() {
            let generation = self.slots[index].generation;
            self.slots.set(index, Slot { value: Some(value), generation });
            proof {
                assert forall|k: int| 0 <= k < self.free_list@.len() implies
                    self.free_list@[k] != index by {
                    assert(old(self).free_list@[k] == self.free_list@[k]);
                }
                assert forall|a: int, b: int|
                    0 <= a < b < self.free_list@.len() implies
                    self.free_list@[a] != self.free_list@[b] by {
                    assert(old(self).free_list@[a] == self.free_list@[a]);
                    assert(old(self).free_list@[b] == self.free_list@[b]);
                }
                assert(self@ =~= old(self)@.update(index as int, (Some(value), generation)));
            }
            Handle { index, generation }
        } else {
            self.slots.push(Slot { value: Some(value), generation: INITIAL_GENERATION });
            proof {
                assert(self@ =~= old(self)@.push((Some(value), INITIAL_GENERATION)));
            }
            Handle { index: self.slots.len() - 1, generation: INITIAL_GENERATION }
        }
    }

    /// Releases the value that `handle` names; every handle of the slot's old
    /// generation is stale from then on.
    pub fn free(&mut self, handle: Handle) -> (r: Option<T>)
        requires
            old(self).wf(),
            old(self).spec_is_alive(handle) ==> handle.generation() < u32::MAX,
        ensures
            final(self).wf(),
            old(self).spec_free(*final(self), handle, r),
    {
        if handle.index >= self.slots.len() {
            return None;
        }
        if self.slots[handle.index].generation != handle.generation {
            return None;
        }
        let slot = &mut self.slots[handle.index];
        match slot.value.take() {
            None => {
                proof {
                    assert(self@ =~= old(self)@);
                }
                None
            },
            Some(value) => {
                slot.generation = slot.generation + 1;
                proof {
                    assert(!self.free_list@.contains(handle.index));
                }
                self.free_list.push(handle.index);
                proof {
                    assert(self@ =~= old(self)@.update(
                        handle.index as int,
                        (None, (handle.generation + 1) as u32),
                    ));
                }
                Some(value)
            },
        }
    }

    /// Whether [`Arena::get`] would find a value for the handle.
    pub fn is_alive(&self, handle: Handle) -> (r: bool)
        ensures
            r == self.spec_is_alive(handle),
    {
        handle.index < self.slots.len() && self.slots[handle.index].generation == handle.generation
            && self.slots[handle.index].value.is_some()
    }

    /// Whether the handle's index is in bounds, whatever its generation or the
    /// slot's contents.
    pub fn contains(&self, handle: Handle) -> (r: bool)
        ensures
            r == (handle.index() < self@.len()),
    {
        handle.index < self.slots.len()
    }

    /// A freed handle is stale: once `free(h)` has returned a value, `h` is
    /// no longer live (so `get`, `get_mut` and `is_alive` find nothing
    /// through it), a second `free(h)` returns `None`, and an allocation that
    /// reuses `h`'s slot hands out a generation strictly greater than `h`'s.
    pub proof fn lemma_free_invalidates(self, freed: Self, h: Handle, released: Option<T>)
        requires
            h.generation() < u32::MAX,
            self.spec_free(freed, h, released),
            released.is_some(),
        ensures
            !freed.spec_is_alive(h),
            freed@[h.index() as int].1 > h.generation(),
            forall|again: Self, second: Option<T>|
                #[trigger] freed.spec_free(again, h, second) ==> second.is_none(),
            forall|after: Self, value: T, r: Handle|
                #[trigger] freed.spec_allocate(after, value, r) && r.index() == h.index()
                    ==> r.generation() > h.generation(),
    {
    }

    /// A handle whose generation is behind its slot's names no value, and
    /// stays behind through any allocation, free, or write through
    /// `get_mut`: an allocation that reuses
    /// its slot hands out a strictly greater generation. A freed handle is
    /// such a handle, so it stays stale for good.
    pub proof fn lemma_outdated_stays_outdated(self, h: Handle)
        requires
            self.wf(),
            h.index() < self@.len(),
            self@[h.index() as int].1 > h.generation(),
        ensures
            !self.spec_is_alive(h),
            forall|after: Self, value: T, r: Handle|
                #[trigger] self.spec_allocate(after, value, r) ==> {
                    &&& h.index() < after@.len()
                    &&& after@[h.index() as int].1 > h.generation()
                    &&& r.index() == h.index() ==> r.generation() > h.generation()
                },
            forall|after: Self, other: Handle, released: Option<T>|
                #[trigger] self.spec_free(after, other, released) && other.generation() < u32::MAX
                    ==> {
                    &&& h.index() < after@.len()
                    &&& after@[h.index() as int].1 > h.generation()
                },
            forall|other: Handle, value: T|
                self.spec_is_alive(other) ==> {
                    let written = #[trigger] self@.update(
                        other.index() as int,
                        (Some(value), other.generation()),
                    );
                    &&& h.index() < written.len()
                    &&& written[h.index() as int].1 > h.generation()
                },
    {
        assert forall|after: Self, value: T, r: Handle|
            #[trigger] self.spec_allocate(after, value, r) implies {
            &&& h.index() < after@.len()
            &&& after@[h.index() as int].1 > h.generation()
            &&& r.index() == h.index() ==> r.generation() > h.generation()
        } by {
            if self.free_indices().len() > 0 {
                assert(self.free_list@[self.free_list@.len() - 1] < self@.len());
            }
        }
    }
}

} // verus!
