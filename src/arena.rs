use vstd::prelude::*;

verus! {

/// Stable handle of an arena slot.
#[derive(Clone, Copy, Debug, PartialEq, Eq, Structural, Hash)]
pub struct Index(pub u32);

impl Index {
    pub open spec fn view(self) -> nat {
        self.0 as nat
    }

    pub fn new(raw: u32) -> (r: Index)
        ensures
            r@ == raw as nat,
    {
        Index(raw)
    }

    pub fn as_usize(self) -> (r: usize)
        ensures
            r as nat == self@,
    {
        self.0 as usize
    }
}

pub enum Entry<T> {
    Occupied(T),
    /// A free slot, with the next slot of the free list.
    Free(Option<Index>),
}

/// Slab of slots addressed by stable indices; freed slots are reused last-freed first.
pub struct Arena<T> {
    storage: Vec<Entry<T>>,
    free_head: Option<Index>,
    /// The free list, from its head.
    free_list: Ghost<Seq<nat>>,
}

/// The largest number of slots: every index fits in 32 bits.
pub open spec fn max_slots() -> nat {
    0x1_0000_0000nat
}

impl<T> Arena<T> {
    /// The occupied slots and their values.
    pub closed spec fn view(&self) -> Map<nat, T> {
        Map::new(
            |i: nat| i < self.storage@.len() && self.storage@[i as int] is Occupied,
            |i: nat| self.storage@[i as int]->Occupied_0,
        )
    }

    /// Whether `insert` has a slot to hand out.
    pub fn can_insert(&self) -> (r: bool)
        requires
            self.wf(),
        ensures
            r == self.can_alloc(),
    {
        self.free_head.is_some() || (self.storage.len() as u64) < 0x1_0000_0000u64
    }

    /// Number of slots, occupied or free.
    pub closed spec fn slot_count(&self) -> nat {
        self.storage@.len()
    }

    /// The free slots in the order in which `insert` reuses them.
    pub closed spec fn free_list(&self) -> Seq<nat> {
        self.free_list@
    }

    pub closed spec fn wf(&self) -> bool {
        let s = self.storage@;
        let fl = self.free_list@;
        &&& s.len() <= max_slots()
        &&& fl.no_duplicates()
        &&& (fl.len() == 0 <==> self.free_head is None)
        &&& fl.len() > 0 ==> self.free_head == Some(Index(fl[0] as u32))
        &&& forall|k: int| 0 <= k < fl.len() ==> fl[k] < s.len()
        &&& forall|k: int|
            #![trigger fl[k]]
            0 <= k < fl.len() ==> s[fl[k] as int] == Entry::<T>::Free(
                if k + 1 < fl.len() {
                    Some(Index(fl[k + 1] as u32))
                } else {
                    None
                },
            )
        &&& forall|i: int| 0 <= i < s.len() && s[i] is Free ==> fl.contains(i as nat)
    }

    /// Whether `insert` can hand out a slot: a free one, or a new one below the 32-bit bound.
    pub open spec fn can_alloc(&self) -> bool {
        self.free_list().len() > 0 || self.slot_count() < max_slots()
    }

    pub proof fn lemma_wf_facts(&self)
        requires
            self.wf(),
        ensures
            forall|k: int| 0 <= k < self.free_list().len() ==> !self@.contains_key(#[trigger] self.free_list()[k]),
            forall|k: int| 0 <= k < self.free_list().len() ==> #[trigger] self.free_list()[k] < self.slot_count(),
            forall|i: nat| self@.contains_key(i) ==> i < self.slot_count(),
            forall|i: nat| i < self.slot_count() && !self@.contains_key(i) ==> self.free_list().contains(i),
            self.slot_count() <= max_slots(),
            self.free_list().no_duplicates(),
    {
        assert forall|k: int| 0 <= k < self.free_list().len() implies !self@.contains_key(#[trigger] self.free_list()[k]) by {
            let fl = self.free_list@;
            assert(self.storage@[fl[k] as int] is Free);
        }
    }

    pub fn new() -> (r: Arena<T>)
        ensures
            r.wf(),
            r@ == Map::<nat, T>::empty(),
            r.slot_count() == 0,
            r.free_list() == Seq::<nat>::empty(),
    {
        let r = Arena { storage: Vec::new(), free_head: None, free_list: Ghost(Seq::empty()) };
        assert(r@ =~= Map::<nat, T>::empty());
        r
    }

    pub fn with_capacity(cap: usize) -> (r: Arena<T>)
        ensures
            r.wf(),
            r@ == Map::<nat, T>::empty(),
            r.slot_count() == 0,
            r.free_list() == Seq::<nat>::empty(),
    {
        let r = Arena {
            storage: Vec::with_capacity(cap),
            free_head: None,
            free_list: Ghost(Seq::empty()),
        };
        assert(r@ =~= Map::<nat, T>::empty());
        r
    }

    /// Stores `value` in the most recently freed slot, or in a new slot when none is free.
    pub fn insert(&mut self, value: T) -> (r: Index)
        requires
            old(self).wf(),
            old(self).can_alloc(),
        ensures
            final(self).wf(),
            !old(self)@.contains_key(r@),
            final(self)@ == old(self)@.insert(r@, value),
            old(self).free_list().len() > 0 ==> r@ == old(self).free_list()[0] && final(self).free_list()
                == old(self).free_list().drop_first() && final(self).slot_count() == old(self).slot_count(),
            old(self).free_list().len() == 0 ==> r@ == old(self).slot_count() && final(self).free_list()
                == old(self).free_list() && final(self).slot_count() == old(self).slot_count() + 1,
    {
        let ghost fl = self.free_list@;
        let ghost s0 = self.storage@;
        match self.free_head {
            Some(idx) => {
                let i = idx.0 as usize;
                assert(s0[fl[0] as int] is Free);
                let next = match &self.storage[i] {
                    Entry::Free(n) => *n,
                    Entry::Occupied(_) => None,
                };
                self.storage.set(i, Entry::Occupied(value));
                self.free_head = next;
                self.free_list = Ghost(fl.drop_first());
                proof {
                    let nfl = fl.drop_first();
                    let s = self.storage@;
                    assert forall|k: int|
                        #![trigger nfl[k]]
                        0 <= k < nfl.len() implies s[nfl[k] as int] == Entry::<T>::Free(
                        if k + 1 < nfl.len() {
                            Some(Index(nfl[k + 1] as u32))
                        } else {
                            None
                        },
                    ) by {
                        assert(nfl[k] == fl[k + 1]);
                        assert(fl[k + 1] != fl[0]);
                    }
                    assert forall|j: int| 0 <= j < s.len() && s[j] is Free implies nfl.contains(j as nat) by {
                        assert(j != i);
                        assert(fl.contains(j as nat));
                        let k = choose|k: int| 0 <= k < fl.len() && fl[k] == j as nat;
                        assert(k != 0);
                        assert(nfl[k - 1] == j as nat);
                    }
                    assert(self@ =~= old(self)@.insert(idx@, value));
                }
                idx
            },
            None => {
                let len = self.storage.len();
                let idx = Index(len as u32);
                self.storage.push(Entry::Occupied(value));
                proof {
                    let s = self.storage@;
                    assert forall|j: int| 0 <= j < s.len() && s[j] is Free implies fl.contains(j as nat) by {
                        assert(s[j] == s0[j]);
                    }
                    assert forall|k: int|
                        #![trigger fl[k]]
                        0 <= k < fl.len() implies s[fl[k] as int] == Entry::<T>::Free(
                        if k + 1 < fl.len() {
                            Some(Index(fl[k + 1] as u32))
                        } else {
                            None
                        },
                    ) by {}
                    assert(self@ =~= old(self)@.insert(idx@, value));
                }
                idx
            },
        }
    }

    pub fn get(&self, index: Index) -> (r: Option<&T>)
        requires
            self.wf(),
        ensures
            r is Some <==> self@.contains_key(index@),
            r matches Some(v) ==> *v == self@[index@],
    {
        let i = index.as_usize();
        if i >= self.storage.len() {
            return None;
        }
        match &self.storage[i] {
            Entry::Occupied(v) => Some(v),
            Entry::Free(_) => None,
        }
    }

    /// A mutable reference to the value of an occupied slot.
    pub fn get_mut(&mut self, index: Index) -> (r: Option<&mut T>)
        requires
            old(self).wf(),
        ensures
            r is Some <==> old(self)@.contains_key(index@),
            r is None ==> *final(self) == *old(self),
            r is Some ==> *r->Some_0 == old(self)@[index@] && final(self).wf() && final(self)@
                == old(self)@.insert(index@, *final(r->Some_0)) && final(self).free_list()
                == old(self).free_list() && final(self).slot_count() == old(self).slot_count(),
    {
        let i = index.as_usize();
        if i >= self.storage.len() {
            return None;
        }
        let is_occupied = match &self.storage[i] {
            Entry::Occupied(_) => true,
            Entry::Free(_) => false,
        };
        if !is_occupied {
            return None;
        }
        match &mut self.storage[i] {
            Entry::Occupied(v) => Some(v),
            Entry::Free(_) => None,
        }
    }

    /// Replaces the value of an occupied slot.
    pub fn set(&mut self, index: Index, value: T)
        requires
            old(self).wf(),
            old(self)@.contains_key(index@),
        ensures
            final(self).wf(),
            final(self)@ == old(self)@.insert(index@, value),
            final(self).free_list() == old(self).free_list(),
            final(self).slot_count() == old(self).slot_count(),
    {
        let i = index.as_usize();
        self.storage.set(i, Entry::Occupied(value));
        proof {
            let s = self.storage@;
            let fl = self.free_list@;
            assert forall|k: int|
                #![trigger fl[k]]
                0 <= k < fl.len() implies s[fl[k] as int] == Entry::<T>::Free(
                if k + 1 < fl.len() {
                    Some(Index(fl[k + 1] as u32))
                } else {
                    None
                },
            ) by {
                assert(old(self).storage@[fl[k] as int] is Free);
            }
            assert(self@ =~= old(self)@.insert(index@, value));
        }
    }

    /// Frees the slot and hands back its value; a free or unknown slot gives `None` and
    /// changes nothing.
    pub fn remove(&mut self, index: Index) -> (r: Option<T>)
        requires
            old(self).wf(),
        ensures
            final(self).wf(),
            r is Some <==> old(self)@.contains_key(index@),
            r matches Some(v) ==> v == old(self)@[index@] && final(self)@ == old(self)@.remove(index@)
                && final(self).free_list() == seq![index@] + old(self).free_list(),
            r is None ==> final(self)@ == old(self)@ && final(self).free_list() == old(self).free_list(),
            final(self).slot_count() == old(self).slot_count(),
    {
        let i = index.as_usize();
        if i >= self.storage.len() {
            return None;
        }
        let ghost fl = self.free_list@;
        let ghost s0 = self.storage@;
        let occupied = match &self.storage[i] {
            Entry::Occupied(_) => true,
            Entry::Free(_) => false,
        };
        if !occupied {
            return None;
        }
        let mut old_entry = Entry::Free(self.free_head);
        self.storage.set_and_swap(i, &mut old_entry);
        match old_entry {
            Entry::Occupied(v) => {
                self.free_head = Some(index);
                self.free_list = Ghost(seq![index@] + fl);
                proof {
                    let nfl = seq![index@] + fl;
                    let s = self.storage@;
                    assert(!fl.contains(index@)) by {
                        if fl.contains(index@) {
                            let k = choose|k: int| 0 <= k < fl.len() && fl[k] == index@;
                            assert(s0[fl[k] as int] is Free);
                        }
                    }
                    assert(nfl.no_duplicates()) by {
                        assert forall|a: int, b: int| 0 <= a < b < nfl.len() implies nfl[a] != nfl[b] by {
                            if a == 0 {
                                assert(nfl[b] == fl[b - 1]);
                                assert(fl.contains(nfl[b]));
                            }
                        }
                    }
                    assert forall|k: int|
                        #![trigger nfl[k]]
                        0 <= k < nfl.len() implies s[nfl[k] as int] == Entry::<T>::Free(
                        if k + 1 < nfl.len() {
                            Some(Index(nfl[k + 1] as u32))
                        } else {
                            None
                        },
                    ) by {
                        if k == 0 {
                            assert(index == Index(index@ as u32));
                            if fl.len() > 0 {
                                assert(nfl[1] == fl[0]);
                            }
                        } else {
                            assert(nfl[k] == fl[k - 1]);
                            assert(fl[k - 1] != index@);
                        }
                    }
                    assert forall|j: int| 0 <= j < s.len() && s[j] is Free implies nfl.contains(j as nat) by {
                        if j == i {
                            assert(nfl[0] == j as nat);
                        } else {
                            assert(fl.contains(j as nat));
                            let k = choose|k: int| 0 <= k < fl.len() && fl[k] == j as nat;
                            assert(nfl[k + 1] == j as nat);
                        }
                    }
                    assert(self@ =~= old(self)@.remove(index@));
                }
                Some(v)
            },
            Entry::Free(_) => {
                proof {
                    assert(false);
                }
                None
            },
        }
    }

    /// Number of slots, occupied or free.
    pub fn slots(&self) -> (r: usize)
        ensures
            r as nat == self.slot_count(),
    {
        self.storage.len()
    }

    /// Walks the free list from its head and checks that every slot on it is a free slot of
    /// this arena; the walk ends because the list has no cycle.
    pub fn check_free_list(&self) -> (r: bool)
        requires
            self.wf(),
        ensures
            r,
    {
        let n = self.storage.len();
        let ghost fl = self.free_list@;
        let mut cur = self.free_head;
        let ghost mut visited: int = 0;
        loop
            invariant
                self.wf(),
                fl == self.free_list@,
                n == self.storage@.len(),
                0 <= visited <= fl.len(),
                cur == if visited < fl.len() { Some(Index(fl[visited] as u32)) } else { None::<Index> },
            decreases fl.len() - visited,
        {
            let idx = match cur {
                Some(x) => x,
                None => {
                    break;
                },
            };
            let ii = idx.0 as usize;
            proof {
                assert(fl[visited] < n);
                assert(fl[visited] < max_slots());
                assert(ii as nat == fl[visited]);
            }
            if ii >= n {
                return false;
            }
            let next = match &self.storage[ii] {
                Entry::Free(nx) => *nx,
                Entry::Occupied(_) => {
                    return false;
                },
            };
            cur = next;
            proof {
                visited = visited + 1;
            }
        }
        true
    }

    /// Frees the slot if it is occupied.
    pub fn dealloc(&mut self, index: Index)
        requires
            old(self).wf(),
        ensures
            final(self).wf(),
            final(self)@ == old(self)@.remove(index@),
    {
        let _ = self.remove(index);
        proof {
            if !old(self)@.contains_key(index@) {
                assert(old(self)@.remove(index@) =~= old(self)@);
            }
        }
    }
}

impl<T: Copy> Arena<T> {
    /// A copy of the arena: same slots, same values, same free list.
    pub fn snapshot(&self) -> (r: Arena<T>)
        requires
            self.wf(),
        ensures
            r.wf(),
            r@ == self@,
            r.free_list() == self.free_list(),
            r.slot_count() == self.slot_count(),
    {
        let mut storage: Vec<Entry<T>> = Vec::new();
        let mut i: usize = 0;
        while i < self.storage.len()
            invariant
                0 <= i <= self.storage@.len(),
                storage@ == self.storage@.take(i as int),
            decreases self.storage.len() - i,
        {
            let e = match &self.storage[i] {
                Entry::Occupied(v) => Entry::Occupied(*v),
                Entry::Free(n) => Entry::Free(*n),
            };
            storage.push(e);
            proof {
                assert(self.storage@.take(i + 1) =~= self.storage@.take(i as int).push(self.storage@[i as int]));
            }
            i = i + 1;
        }
        proof {
            assert(self.storage@.take(i as int) =~= self.storage@);
        }
        let r = Arena { storage, free_head: self.free_head, free_list: Ghost(self.free_list@) };
        proof {
            assert(r@ =~= self@);
        }
        r
    }
}

} // verus!
