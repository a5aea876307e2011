//! A generational slab: values live in reusable slots and are addressed by keys that carry
//! the slot's generation, so a key to a removed value never reaches a later occupant.

use vstd::prelude::*;

verus! {

#[derive(Debug, Clone, Copy, PartialEq, Eq, Hash, Structural)]
pub struct Key {
    pub index: usize,
    pub generation: u64,
}

#[derive(Debug)]
struct Slot<T> {
    generation: u64,
    data: SlotData<T>,
}

#[derive(Debug)]
enum SlotData<T> {
    Occupied(T),
    Vacant(usize),
}

pub struct Slab<T> {
    entries: Vec<Slot<T>>,
    next_free: usize,
    len: usize,
    free: Ghost<Seq<usize>>,
}

/// The observable state of one slot.
pub struct SlotState<T> {
    pub generation: u64,
    pub value: Option<T>,
}

/// The observable state of a slab: its slots, and the stack of vacant slots, most recently
/// vacated first.
pub struct SlabView<T> {
    pub slots: Seq<SlotState<T>>,
    pub free: Seq<usize>,
}

/// The value that `key` addresses, if it is live.
pub open spec fn slab_lookup<T>(v: SlabView<T>, key: Key) -> Option<T> {
    if key.index < v.slots.len() && v.slots[key.index as int].generation == key.generation {
        v.slots[key.index as int].value
    } else {
        None
    }
}

/// Number of live values.
pub open spec fn slab_len<T>(v: SlabView<T>) -> int {
    v.slots.len() - v.free.len()
}

/// The effect of inserting `val` under key `k`: the most recently vacated slot is reused with
/// its generation advanced, or a fresh slot of generation 0 is appended.
pub open spec fn slab_insert_post<T>(o: SlabView<T>, n: SlabView<T>, k: Key, val: T) -> bool {
    if o.free.len() == 0 {
        &&& k == Key { index: o.slots.len() as usize, generation: 0 }
        &&& n.slots == o.slots.push(SlotState { generation: 0, value: Some(val) })
        &&& n.free == o.free
    } else {
        let i = o.free[0];
        let g = (o.slots[i as int].generation + 1) as u64;
        &&& k == Key { index: i, generation: g }
        &&& n.slots == o.slots.update(i as int, SlotState { generation: g, value: Some(val) })
        &&& n.free == o.free.drop_first()
    }
}

/// The effect of removing `key`: a live value is returned and its slot pushed on the free stack;
/// otherwise nothing changes.
pub open spec fn slab_remove_post<T>(o: SlabView<T>, n: SlabView<T>, key: Key, r: Option<T>) -> bool {
    &&& r == slab_lookup(o, key)
    &&& r is Some ==> {
        &&& n.slots == o.slots.update(key.index as int, SlotState { generation: key.generation, value: None })
        &&& n.free == seq![key.index].add(o.free)
    }
    &&& r is None ==> n == o
}

/// Consistency of a slab's observable state: the free stack lists distinct vacant slots.
pub open spec fn slab_view_wf<T>(v: SlabView<T>) -> bool {
    &&& v.free.no_duplicates()
    &&& forall|i: int| 0 <= i < v.free.len() ==> #[trigger] v.free[i] < v.slots.len()
    &&& forall|i: int| 0 <= i < v.free.len() ==> (#[trigger] v.slots[v.free[i] as int]).value is None
    &&& v.slots.len() < usize::MAX
}

/// Reading a key right after inserting under it gives back the inserted value, and every
/// other key reads as before.
pub proof fn lemma_insert_then_get<T>(o: SlabView<T>, n: SlabView<T>, k: Key, val: T, other: Key)
    requires
        slab_view_wf(o),
        slab_insert_post(o, n, k, val),
    ensures
        slab_lookup(n, k) == Some(val),
        other != k ==> slab_lookup(n, other) == slab_lookup(o, other),
{
    if o.free.len() > 0 {
        assert(o.free[0] < o.slots.len());
    }
}

/// After a removal the removed key no longer reads anything, and every other key reads as before.
pub proof fn lemma_remove_then_get<T>(o: SlabView<T>, n: SlabView<T>, key: Key, r: Option<T>, other: Key)
    requires
        slab_view_wf(o),
        slab_remove_post(o, n, key, r),
    ensures
        slab_lookup(n, key) is None,
        other != key ==> slab_lookup(n, other) == slab_lookup(o, other),
{
}

/// A key whose value was removed stays dead when its slot is reused: the new occupant gets a
/// different generation.
pub proof fn lemma_stale_key_after_reuse<T>(
    o: SlabView<T>,
    m: SlabView<T>,
    n: SlabView<T>,
    key: Key,
    r: Option<T>,
    k2: Key,
    val: T,
)
    requires
        slab_view_wf(o),
        slab_remove_post(o, m, key, r),
        r is Some,
        key.generation < u64::MAX,
        slab_insert_post(m, n, k2, val),
    ensures
        k2.index == key.index,
        k2.generation != key.generation,
        slab_lookup(n, key) is None,
{
    assert(m.free[0] == key.index);
    assert(m.slots[key.index as int].generation == key.generation);
}

spec fn slot_state<T>(s: Slot<T>) -> SlotState<T> {
    SlotState {
        generation: s.generation,
        value: match s.data {
            SlotData::Occupied(v) => Some(v),
            SlotData::Vacant(_) => None,
        },
    }
}

spec fn occupied_slot<T>(g: u64, v: T) -> Slot<T> {
    Slot { generation: g, data: SlotData::Occupied(v) }
}

spec fn free_next(free: Seq<usize>, i: int) -> usize {
    if i + 1 < free.len() { free[i + 1] } else { usize::MAX }
}


/// A duplicate-free sequence of indices below `n` that misses one index below `n` has fewer
/// than `n` elements.
proof fn lemma_free_shorter(free: Seq<usize>, n: int, missing: usize)
    requires
        free.no_duplicates(),
        forall|i: int| 0 <= i < free.len() ==> #[trigger] free[i] < n,
        missing < n,
        !free.contains(missing),
    ensures
        free.len() < n,
{
    let fs = free.map_values(|x: usize| x as int);
    assert(fs.no_duplicates()) by {
        assert forall|a: int, b: int| 0 <= a < fs.len() && 0 <= b < fs.len() && a != b implies fs[a] != fs[b] by {
            assert(free[a] != free[b]);
        }
    }
    fs.unique_seq_to_set();
    let range = vstd::set_lib::set_int_range(0, n);
    vstd::set_lib::lemma_int_range(0, n);
    let bigger = fs.to_set().insert(missing as int);
    assert(bigger.subset_of(range)) by {
        assert forall|x: int| bigger.contains(x) implies range.contains(x) by {
            if x != missing as int {
                assert(fs.to_set().contains(x));
                let i = choose|i: int| 0 <= i < fs.len() && fs[i] == x;
                assert(free[i] < n);
            }
        }
    }
    vstd::set_lib::lemma_len_subset(bigger, range);
    assert(!fs.to_set().contains(missing as int)) by {
        if fs.to_set().contains(missing as int) {
            let i = choose|i: int| 0 <= i < fs.len() && fs[i] == missing as int;
            assert(free[i] == missing);
        }
    }
}

impl<T> View for Slab<T> {
    type V = SlabView<T>;

    closed spec fn view(&self) -> SlabView<T> {
        SlabView { slots: self.entries@.map_values(|s: Slot<T>| slot_state(s)), free: self.free@ }
    }
}

impl<T> Slab<T> {
    /// The free stack threads through exactly the vacant slots, and `len` counts the rest.
    pub closed spec fn wf(&self) -> bool {
        let free = self.free@;
        &&& self.entries@.len() < usize::MAX
        &&& free.no_duplicates()
        &&& self.next_free == (if free.len() == 0 { usize::MAX } else { free[0] })
        &&& forall|i: int| 0 <= i < free.len() ==> #[trigger] free[i] < self.entries@.len()
        &&& forall|i: int| 0 <= i < free.len() ==>
            (#[trigger] self.entries@[free[i] as int]).data == SlotData::<T>::Vacant(free_next(free, i))
        &&& forall|j: int| 0 <= j < self.entries@.len() && (#[trigger] self.entries@[j]).data is Vacant
            ==> free.contains(j as usize)
        &&& self.len == self.entries@.len() - free.len()
    }

    pub proof fn lemma_wf_view(&self)
        requires
            self.wf(),
        ensures
            slab_view_wf(self@),
    {
        let v = self@;
        assert forall|i: int| 0 <= i < v.free.len() implies (#[trigger] v.slots[v.free[i] as int]).value is None by {
            assert(self.free@[i] < self.entries@.len());
            assert(self.entries@[self.free@[i] as int].data is Vacant);
        }
    }

    pub fn new() -> (r: Self)
        ensures
            r.wf(),
            r@.slots == Seq::<SlotState<T>>::empty(),
            r@.free == Seq::<usize>::empty(),
    {
        let r = Self { entries: Vec::new(), next_free: usize::MAX, len: 0, free: Ghost(Seq::empty()) };
        assert(r@.slots =~= Seq::<SlotState<T>>::empty());
        r
    }

    /// Same as `new`; the capacity is only an allocation hint.
    pub fn with_capacity(capacity: usize) -> (r: Self)
        ensures
            r.wf(),
            r@.slots == Seq::<SlotState<T>>::empty(),
            r@.free == Seq::<usize>::empty(),
    {
        let r = Self {
            entries: Vec::with_capacity(capacity),
            next_free: usize::MAX,
            len: 0,
            free: Ghost(Seq::empty()),
        };
        assert(r@.slots =~= Seq::<SlotState<T>>::empty());
        r
    }

    pub fn len(&self) -> (r: usize)
        requires
            self.wf(),
        ensures
            r == slab_len(self@),
    {
        self.len
    }

    pub fn is_empty(&self) -> (r: bool)
        requires
            self.wf(),
        ensures
            r == (slab_len(self@) == 0),
    {
        self.len == 0
    }


    /// Stores `val`, reusing the most recently vacated slot (with its generation advanced)
    /// or appending a fresh slot of generation 0 when none is vacant.
    pub fn insert(&mut self, val: T) -> (k: Key)
        requires
            old(self).wf(),
            old(self)@.slots.len() + 1 < usize::MAX,
            old(self)@.free.len() > 0 ==> old(self)@.slots[old(self)@.free[0] as int].generation < u64::MAX,
        ensures
            final(self).wf(),
            slab_insert_post(old(self)@, final(self)@, k, val),
    {
        let ghost free = self.free@;
        if self.next_free == usize::MAX {
            proof {
                if free.len() > 0 {
                    assert(free[0] < self.entries@.len());
                }
            }
            let index = self.entries.len();
            self.entries.push(Slot { generation: 0, data: SlotData::Occupied(val) });
            self.len = self.len + 1;
            proof {
                let old_e = old(self).entries@;
                assert(self.entries@.map_values(|s: Slot<T>| slot_state(s)) =~= old_e.map_values(|s: Slot<T>| slot_state(s)).push(SlotState { generation: 0, value: Some(val) }));
                assert forall|j: int| 0 <= j < self.entries@.len() && (#[trigger] self.entries@[j]).data is Vacant
                    implies free.contains(j as usize) by {
                    assert(j < old_e.len());
                    assert(old_e[j] == self.entries@[j]);
                }
                assert forall|i: int| 0 <= i < free.len() implies
                    (#[trigger] self.entries@[free[i] as int]).data == SlotData::<T>::Vacant(free_next(free, i)) by {
                    assert(free[i] < old_e.len());
                }
            }
            Key { index, generation: 0 }
        } else {
            let index = self.next_free;
            proof {
                assert(free.len() > 0);
                assert(free[0] < self.entries@.len());
                assert(self.entries@[free[0] as int].data == SlotData::<T>::Vacant(free_next(free, 0)));
            }
            let next_free = match &self.entries[index].data {
                SlotData::Vacant(next) => *next,
                SlotData::Occupied(_) => {
                    proof {
                        assert(false);
                    }
                    usize::MAX
                },
            };
            let generation = self.entries[index].generation + 1;
            self.entries.set(index, Slot { generation, data: SlotData::Occupied(val) });
            self.next_free = next_free;
            self.len = self.len + 1;
            self.free = Ghost(free.drop_first());
            proof {
                let old_e = old(self).entries@;
                let nf = free.drop_first();
                assert(self.entries@.map_values(|s: Slot<T>| slot_state(s)) =~= old_e.map_values(|s: Slot<T>| slot_state(s)).update(index as int, SlotState { generation, value: Some(val) }));
                assert forall|i: int| 0 <= i < nf.len() implies #[trigger] nf[i] < self.entries@.len() by {
                    assert(nf[i] == free[i + 1]);
                }
                assert forall|i: int| 0 <= i < nf.len() implies
                    (#[trigger] self.entries@[nf[i] as int]).data == SlotData::<T>::Vacant(free_next(nf, i)) by {
                    assert(nf[i] == free[i + 1]);
                    assert(free[i + 1] != free[0]);
                    assert(free_next(nf, i) == free_next(free, i + 1));
                }
                assert forall|j: int| 0 <= j < self.entries@.len() && (#[trigger] self.entries@[j]).data is Vacant
                    implies nf.contains(j as usize) by {
                    assert(j != index);
                    assert(old_e[j] == self.entries@[j]);
                    assert(free.contains(j as usize));
                    let t = choose|t: int| 0 <= t < free.len() && free[t] == j as usize;
                    assert(t != 0);
                    assert(nf[t - 1] == j as usize);
                }
                if nf.len() > 0 {
                    assert(next_free == free[1]);
                } else {
                    assert(next_free == usize::MAX);
                }
            }
            Key { index, generation }
        }
    }

    /// Removes and returns the value that `key` addresses, if it is live; the slot goes on top
    /// of the free stack.
    pub fn remove(&mut self, key: Key) -> (r: Option<T>)
        requires
            old(self).wf(),
        ensures
            final(self).wf(),
            slab_remove_post(old(self)@, final(self)@, key, r),
    {
        if key.index >= self.entries.len() {
            return None;
        }
        if self.entries[key.index].generation != key.generation {
            return None;
        }
        let vacant = match &self.entries[key.index].data {
            SlotData::Vacant(_) => true,
            SlotData::Occupied(_) => false,
        };
        if vacant {
            return None;
        }
        let ghost free = self.free@;
        proof {
            if free.contains(key.index) {
                let t = choose|t: int| 0 <= t < free.len() && free[t] == key.index;
                assert(self.entries@[free[t] as int].data is Vacant);
            }
            lemma_free_shorter(free, self.entries@.len() as int, key.index);
        }
        let mut slot = Slot { generation: key.generation, data: SlotData::Vacant(self.next_free) };
        self.entries.set_and_swap(key.index, &mut slot);
        self.next_free = key.index;
        self.len = self.len - 1;
        self.free = Ghost(seq![key.index].add(free));
        proof {
            let old_e = old(self).entries@;
            let nf = seq![key.index].add(free);
            assert(slot == old_e[key.index as int]);
            assert(self.entries@.map_values(|s: Slot<T>| slot_state(s)) =~= old_e.map_values(|s: Slot<T>| slot_state(s)).update(key.index as int, SlotState { generation: key.generation, value: None }));
            assert(nf.no_duplicates()) by {
                assert forall|a: int, b: int| 0 <= a < nf.len() && 0 <= b < nf.len() && a != b implies nf[a] != nf[b] by {
                    if a > 0 && b > 0 {
                        assert(nf[a] == free[a - 1] && nf[b] == free[b - 1]);
                    } else if a == 0 {
                        assert(nf[b] == free[b - 1]);
                        assert(free.contains(free[b - 1]));
                    } else {
                        assert(nf[a] == free[a - 1]);
                        assert(free.contains(free[a - 1]));
                    }
                }
            }
            assert forall|i: int| 0 <= i < nf.len() implies #[trigger] nf[i] < self.entries@.len() by {
                if i > 0 {
                    assert(nf[i] == free[i - 1]);
                }
            }
            assert forall|i: int| 0 <= i < nf.len() implies
                (#[trigger] self.entries@[nf[i] as int]).data == SlotData::<T>::Vacant(free_next(nf, i)) by {
                if i > 0 {
                    assert(nf[i] == free[i - 1]);
                    assert(free_next(nf, i) == free_next(free, i - 1));
                    assert(free[i - 1] != key.index) by {
                        assert(free.contains(free[i - 1]));
                    }
                } else {
                    if free.len() > 0 {
                        assert(free_next(nf, 0) == free[0]);
                    }
                }
            }
            assert forall|j: int| 0 <= j < self.entries@.len() && (#[trigger] self.entries@[j]).data is Vacant
                implies nf.contains(j as usize) by {
                if j == key.index {
                    assert(nf[0] == j as usize);
                } else {
                    assert(old_e[j] == self.entries@[j]);
                    let t = choose|t: int| 0 <= t < free.len() && free[t] == j as usize;
                    assert(nf[t + 1] == j as usize);
                }
            }
        }
        match slot.data {
            SlotData::Occupied(val) => Some(val),
            SlotData::Vacant(_) => {
                proof {
                    assert(false);
                }
                None
            },
        }
    }


    /// Mutable access to the value that `key` addresses, if it is live.
    pub fn get_mut(&mut self, key: Key) -> (r: Option<&mut T>)
        requires
            old(self).wf(),
        ensures
            final(self).wf(),
            match r {
                Some(x) => {
                    &&& slab_lookup(old(self)@, key) == Some(*x)
                    &&& final(self)@.free == old(self)@.free
                    &&& final(self)@.slots == old(self)@.slots.update(key.index as int, SlotState {
                        generation: key.generation,
                        value: Some(*final(x)),
                    })
                },
                None => slab_lookup(old(self)@, key) is None && final(self)@ == old(self)@,
            },
    {
        if key.index >= self.entries.len() {
            return None;
        }
        if self.entries[key.index].generation != key.generation {
            return None;
        }
        let vacant = match &self.entries[key.index].data {
            SlotData::Vacant(_) => true,
            SlotData::Occupied(_) => false,
        };
        if vacant {
            return None;
        }
        let ghost e = self.entries@;
        let ghost free = self.free@;
        let ghost i = key.index as int;
        proof {
            assert forall|sl: Slot<T>| sl.generation == key.generation && sl.data is Occupied implies
                (#[trigger] e.update(i, sl)).map_values(|s: Slot<T>| slot_state(s))
                =~= e.map_values(|s: Slot<T>| slot_state(s)).update(i, slot_state(sl)) by {}
            assert forall|sl: Slot<T>, q: int| 0 <= q < e.len() && q != i implies
                #[trigger] e.update(i, sl)[q] == e[q] by {}
            if free.contains(key.index) {
                let t = choose|t: int| 0 <= t < free.len() && free[t] == key.index;
                assert(e[free[t] as int].data is Vacant);
            }
        }
        let slot = &mut self.entries[key.index];
        match &mut slot.data {
            SlotData::Occupied(val) => Some(val),
            SlotData::Vacant(_) => {
                proof {
                    assert(false);
                }
                None
            },
        }
    }

    pub fn get(&self, key: Key) -> (r: Option<&T>)
        requires
            self.wf(),
        ensures
            match r {
                Some(x) => slab_lookup(self@, key) == Some(*x),
                None => slab_lookup(self@, key) is None,
            },
    {
        if key.index >= self.entries.len() {
            return None;
        }
        let slot = &self.entries[key.index];
        if slot.generation != key.generation {
            return None;
        }
        match &slot.data {
            SlotData::Occupied(val) => Some(val),
            SlotData::Vacant(_) => None,
        }
    }
}

} // verus!
