//! Component storage for an entity-component system: one slot per entity, indexed by the
//! entity's number.

use vstd::prelude::*;

verus! {

/// Entities are numbered from zero in the order they are spawned.
pub type Entity = usize;

/// The components of one type, indexed by entity.
#[derive(Debug)]
pub struct VecStorage<T> {
    components: Vec<Option<T>>,
}

impl<T> View for VecStorage<T> {
    type V = Seq<Option<T>>;

    closed spec fn view(&self) -> Seq<Option<T>> {
        self.components@
    }
}

/// The component of `entity` in `slots`, if it has one.
pub open spec fn slot<T>(slots: Seq<Option<T>>, entity: int) -> Option<T> {
    if 0 <= entity < slots.len() { slots[entity] } else { None }
}

/// The entities below `n` that hold a component in `slots`, in increasing order, each with
/// its component.
pub open spec fn holders<T>(slots: Seq<Option<T>>, n: int) -> Seq<(int, T)>
    decreases n,
{
    if n <= 0 {
        Seq::empty()
    } else {
        match slot(slots, n - 1) {
            Some(c) => holders(slots, n - 1).push((n - 1, c)),
            None => holders(slots, n - 1),
        }
    }
}

/// The entities below `n` that hold a component in both `a` and `b`, in increasing order,
/// each with its two components.
pub open spec fn joint_holders<T, U>(a: Seq<Option<T>>, b: Seq<Option<U>>, n: int) -> Seq<(int, T, U)>
    decreases n,
{
    if n <= 0 {
        Seq::empty()
    } else {
        match (slot(a, n - 1), slot(b, n - 1)) {
            (Some(x), Some(y)) => joint_holders(a, b, n - 1).push((n - 1, x, y)),
            _ => joint_holders(a, b, n - 1),
        }
    }
}

impl<T> Default for VecStorage<T> {
    fn default() -> (s: Self)
        ensures
            s@.len() == 0,
    {
        VecStorage { components: Vec::new() }
    }
}

impl<T> VecStorage<T> {
    /// Gives `entity` the component, growing the storage as needed.
    pub fn insert(&mut self, entity: Entity, component: T)
        requires
            entity < usize::MAX,
        ensures
            final(self)@.len() == if entity < old(self)@.len() { old(self)@.len() as int } else { entity + 1 },
            forall|e: int| #![trigger slot(final(self)@, e)] e != entity ==> slot(final(self)@, e) == slot(old(self)@, e),
            slot(final(self)@, entity as int) == Some(component),
    {
        let ghost before = self.components@;
        while self.components.len() <= entity
            invariant
                entity < usize::MAX,
                self.components@.len() >= before.len(),
                self.components@.len() <= if entity < before.len() { before.len() as int } else { entity + 1 },
                forall|e: int| 0 <= e < before.len() ==> #[trigger] self.components@[e] == before[e],
                forall|e: int| before.len() <= e < self.components@.len() ==> #[trigger] self.components@[e] is None,
            decreases entity + 1 - self.components.len(),
        {
            self.components.push(None);
        }
        self.components.set(entity, Some(component));
    }

    /// The component of `entity`, if it has one.
    pub fn get(&self, entity: Entity) -> (r: Option<&T>)
        ensures
            r is None <==> slot(self@, entity as int) is None,
            r matches Some(c) ==> slot(self@, entity as int) == Some(*c),
    {
        if entity < self.components.len() {
            self.components[entity].as_ref()
        } else {
            None
        }
    }

    /// The component of `entity`, for changing in place.
    pub fn get_mut(&mut self, entity: Entity) -> (r: Option<&mut T>)
        ensures
            r is None <==> slot(old(self)@, entity as int) is None,
            r is None ==> final(self)@ == old(self)@,
            r matches Some(c) ==> {
                &&& slot(old(self)@, entity as int) == Some(*c)
                &&& final(self)@ == old(self)@.update(entity as int, Some(*final(c)))
            },
    {
        if entity < self.components.len() {
            self.components[entity].as_mut()
        } else {
            None
        }
    }

    /// Every entity that holds a component here, in increasing order, with its component.
    pub fn entries(&self) -> (r: Vec<(Entity, &T)>)
        ensures
            r@.len() == holders(self@, self@.len() as int).len(),
            forall|i: int| 0 <= i < r@.len() ==> {
                &&& r@[i].0 == (#[trigger] holders(self@, self@.len() as int)[i]).0
                &&& *r@[i].1 == holders(self@, self@.len() as int)[i].1
            },
    {
        let mut out: Vec<(Entity, &T)> = Vec::new();
        let n = self.components.len();
        let mut id: usize = 0;
        while id < n
            invariant
                n == self@.len(),
                id <= n,
                out@.len() == holders(self@, id as int).len(),
                forall|i: int| 0 <= i < out@.len() ==> {
                    &&& out@[i].0 == (#[trigger] holders(self@, id as int)[i]).0
                    &&& *out@[i].1 == holders(self@, id as int)[i].1
                },
            decreases n - id,
        {
            if let Some(c) = self.components[id].as_ref() {
                out.push((id, c));
            }
            id = id + 1;
        }
        out
    }

    /// Every entity that holds a component both here and in `other`, in increasing order,
    /// with its two components.
    pub fn join<'a, 'b, U>(&'a self, other: &'b VecStorage<U>) -> (r: Vec<(Entity, &'a T, &'b U)>)
        ensures
            r@.len() == joint_holders(self@, other@, min_len(self@.len(), other@.len())).len(),
            forall|i: int| 0 <= i < r@.len() ==> {
                let h = #[trigger] joint_holders(self@, other@, min_len(self@.len(), other@.len()))[i];
                &&& r@[i].0 == h.0
                &&& *r@[i].1 == h.1
                &&& *r@[i].2 == h.2
            },
    {
        let mut out: Vec<(Entity, &'a T, &'b U)> = Vec::new();
        let n = if self.components.len() < other.components.len() {
            self.components.len()
        } else {
            other.components.len()
        };
        let mut id: usize = 0;
        while id < n
            invariant
                n == min_len(self@.len(), other@.len()),
                id <= n,
                out@.len() == joint_holders(self@, other@, id as int).len(),
                forall|i: int| 0 <= i < out@.len() ==> {
                    let h = #[trigger] joint_holders(self@, other@, id as int)[i];
                    &&& out@[i].0 == h.0
                    &&& *out@[i].1 == h.1
                    &&& *out@[i].2 == h.2
                },
            decreases n - id,
        {
            if let (Some(x), Some(y)) = (self.components[id].as_ref(), other.components[id].as_ref()) {
                out.push((id, x, y));
            }
            id = id + 1;
        }
        out
    }
}

/// The shorter of two lengths.
pub open spec fn min_len(a: nat, b: nat) -> int {
    if a < b { a as int } else { b as int }
}

} // verus!
