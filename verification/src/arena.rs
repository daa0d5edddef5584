use vstd::prelude::*;

verus! {

/// A stable-key arena: each inserted item gets a key that stays valid until
/// the item is removed, lookups and removals are constant-time, and the key
/// that the next insertion will use can be read without changing the arena.
///
/// Freed slots are recycled through a free list, so keys of removed items may
/// be handed out again by later insertions.
pub struct Slab<T> {
    storage: Vec<Option<T>>,
    free_list: Vec<usize>,
}

impl<T> Slab<T> {
    /// The live contents, as a map from key to item.
    pub closed spec fn view(&self) -> Map<usize, T> {
        Map::new(
            |k: usize| k < self.storage@.len() && self.storage@[k as int] is Some,
            |k: usize| self.storage@[k as int]->0,
        )
    }

    /// Internal consistency of the free list: it lists exactly the vacant
    /// slots, each once.
    pub closed spec fn wf(&self) -> bool {
        &&& self.free_list@.no_duplicates()
        &&& forall|i: int|
            0 <= i < self.free_list@.len() ==> self.free_list@[i] < self.storage@.len()
                && self.storage@[self.free_list@[i] as int] is None
        &&& forall|k: usize|
            k < self.storage@.len() && self.storage@[k as int] is None
                ==> self.free_list@.contains(k)
    }

    /// The key that the next insertion will use.
    pub closed spec fn spec_next_key(&self) -> usize {
        if self.free_list@.len() > 0 {
            self.free_list@.last()
        } else {
            self.storage@.len() as usize
        }
    }

    /// Every key of the arena is a vector index, so strictly below
    /// `usize::MAX`; the all-ones value can serve as a sentinel.
    pub proof fn lemma_key_bound(&self)
        ensures
            forall|k: usize| #[trigger] self@.dom().contains(k) ==> k < usize::MAX,
    {
        vstd::std_specs::vec::axiom_spec_len(&self.storage);
    }

    pub fn new() -> (r: Self)
        ensures
            r.wf(),
            r@ =~= Map::<usize, T>::empty(),
    {
        Slab { storage: Vec::new(), free_list: Vec::new() }
    }

    /// The key the next insert will use, without mutating the arena.
    pub fn next_key(&self) -> (k: usize)
        requires
            self.wf(),
        ensures
            k == self.spec_next_key(),
            !self@.dom().contains(k),
    {
        if self.free_list.len() > 0 {
            self.free_list[self.free_list.len() - 1]
        } else {
            self.storage.len()
        }
    }

    pub fn insert(&mut self, item: T) -> (k: usize)
        requires
            old(self).wf(),
        ensures
            final (self).wf(),
            k == old(self).spec_next_key(),
            !old(self)@.dom().contains(k),
            final (self)@ =~= old(self)@.insert(k, item),
    {
        let ghost old_free = self.free_list@;
        match self.free_list.pop() {
            Some(k) => {
                proof {
                    assert forall|i: int| 0 <= i < self.free_list@.len() implies
                        old_free.contains(old_free[i]) by {}
                }
                self.storage[k] = Some(item);
                proof {
                    assert forall|j: usize|
                        j < self.storage@.len() && self.storage@[j as int] is None implies
                        self.free_list@.contains(j) by {
                        assert(j != k);
                        assert(old_free.contains(j));
                        let i = choose|i: int| 0 <= i < old_free.len() && old_free[i] == j;
                        assert(old_free.last() == k);
                        assert(i < old_free.len() - 1);
                        assert(self.free_list@[i] == j);
                    }
                }
                k
            }
            None => {
                let k = self.storage.len();
                self.storage.push(Some(item));
                k
            }
        }
    }

    pub fn get(&self, k: usize) -> (r: &T)
        requires
            self@.dom().contains(k),
        ensures
            *r == self@[k],
    {
        match &self.storage[k] {
            Some(item) => item,
            None => {
                proof {
                    assert(false);
                }
                unreached()
            }
        }
    }

    pub fn get_mut(&mut self, k: usize) -> (r: &mut T)
        requires
            old(self)@.dom().contains(k),
        ensures
            *r == old(self)@[k],
            old(self).wf() ==> final (self).wf(),
            final (self)@ =~= old(self)@.insert(k, *final (r)),
            final (self).spec_next_key() == old(self).spec_next_key(),
    {
        match &mut self.storage[k] {
            Some(item) => item,
            None => {
                proof {
                    assert(false);
                }
                unreached()
            }
        }
    }

    pub fn remove(&mut self, k: usize) -> (r: T)
        requires
            old(self).wf(),
            old(self)@.dom().contains(k),
        ensures
            final (self).wf(),
            r == old(self)@[k],
            final (self)@ =~= old(self)@.remove(k),
    {
        proof {
            assert(!old(self).free_list@.contains(k));
        }
        let slot = &mut self.storage[k];
        let item = slot.take();
        self.free_list.push(k);
        proof {
            assert forall|j: usize|
                j < self.storage@.len() && self.storage@[j as int] is None implies
                self.free_list@.contains(j) by {
                if j != k {
                    assert(old(self).free_list@.contains(j));
                    let i = choose|i: int|
                        0 <= i < old(self).free_list@.len() && old(self).free_list@[i] == j;
                    assert(self.free_list@[i] == j);
                } else {
                    assert(self.free_list@.last() == k);
                }
            }
        }
        match item {
            Some(item) => item,
            None => {
                proof {
                    assert(false);
                }
                unreached()
            }
        }
    }
}

} // verus!
