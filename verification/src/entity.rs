//! Entity identifiers: the monotonic allocator issuing unique ids singly or
//! in batches, and the thin entity handle forwarding component operations.

use vstd::prelude::*;

use crate::component::{Component, ComponentStorage};

verus! {

/// Unique integer key correlating a logical entity's components across tables.
pub type EntityID = usize;

/// A thin handle wrapping one EntityID: it forwards component operations to a
/// given store, with no caching and no state of its own.
pub struct Entity(EntityID);

impl Entity {
    /// The id this entity wraps.
    pub closed spec fn id(&self) -> EntityID {
        self.0
    }

    /// The entity handle wrapping a given id.
    pub closed spec fn spec_from_id(id: usize) -> Entity {
        Entity(id)
    }

    /// The handle `spec_from_id` denotes wraps exactly the id given to it.
    pub proof fn lemma_spec_from_id(id: usize)
        ensures
            Entity::spec_from_id(id).id() == id,
    {
    }

    /// Creates a new entity carrying a fresh id from the register.
    pub fn new(register: &mut EntityRegister) -> (e: Entity)
        requires
            old(register).next_id() < usize::MAX,
        ensures
            e.id() == old(register).next_id(),
            final(register).next_id() == old(register).next_id() + 1,
    {
        Entity(register.get_new_id())
    }

    /// Adds a component of this entity to the given store, overwriting any
    /// value already stored for it, and hands the entity back for chaining.
    pub fn add<C: Component<S>, S: ComponentStorage<C>>(self, storage: &mut S, comp: C) -> (e: Self)
        ensures
            final(storage).contents() == old(storage).contents().insert(self.id(), comp),
            e.id() == self.id(),
    {
        storage.component_insert(self.0, comp);
        self
    }

    /// Removes this entity's component from the given store; no effect when
    /// none is stored.
    pub fn rm<C: Component<S>, S: ComponentStorage<C>>(self, storage: &mut S)
        ensures
            final(storage).contents() == old(storage).contents().remove(self.id()),
    {
        storage.component_remove(&self.0);
    }

    /// Looks this entity's component up in the given store.
    pub fn get<'a, C: Component<S>, S: ComponentStorage<C>>(&self, storage: &'a S) -> (r: Option<
        &'a C,
    >)
        ensures
            match r {
                Some(v) => storage.contents().contains_key(self.id()) && *v
                    == storage.contents()[self.id()],
                None => !storage.contents().contains_key(self.id()),
            },
    {
        storage.component_get(self.0)
    }

    /// The id of this entity.
    pub fn get_id(&self) -> (r: usize)
        ensures
            r == self.id(),
    {
        self.0
    }
}

impl From<usize> for Entity {
    /// An entity handle for an already issued id.
    fn from(id: usize) -> (e: Entity) {
        Entity(id)
    }
}

impl vstd::std_specs::convert::FromSpecImpl<usize> for Entity {
    open spec fn obeys_from_spec() -> bool {
        true
    }

    open spec fn from_spec(id: usize) -> Entity {
        Entity::spec_from_id(id)
    }
}

/// Issues unique, monotonically increasing entity identifiers, singly or in
/// batches. Identifiers start at zero and are never reused.
pub struct EntityRegister {
    next: usize,
}

impl EntityRegister {
    /// The next identifier that will be issued.
    pub closed spec fn next_id(&self) -> int {
        self.next as int
    }

    /// A fresh allocator whose first issued identifier is zero.
    pub fn new() -> (r: Self)
        ensures
            r.next_id() == 0,
    {
        EntityRegister { next: 0 }
    }

    /// Returns a new unique id: the current counter value, advancing the
    /// counter by one.
    pub fn get_new_id(&mut self) -> (id: usize)
        requires
            old(self).next_id() < usize::MAX,
        ensures
            id == old(self).next_id(),
            final(self).next_id() == old(self).next_id() + 1,
    {
        let id = self.next;
        self.next = self.next + 1;
        id
    }

    /// Reserves `num` consecutive ids in one step and returns them as the
    /// half-open range `start..start + num`.
    pub fn get_new_ids(&mut self, num: usize) -> (r: (usize, usize))
        requires
            old(self).next_id() + num <= usize::MAX,
        ensures
            r.0 == old(self).next_id(),
            r.1 == old(self).next_id() + num,
            final(self).next_id() == old(self).next_id() + num,
    {
        let start = self.next;
        self.next = self.next + num;
        (start, self.next)
    }
}

/// Membership in a half-open range of entity ids.
pub open spec fn in_id_range(start: int, end: int, i: int) -> bool {
    start <= i < end
}

/// Law: identifiers issued by successive reservations never overlap. A batch
/// of `n` ids starting at the counter value `c` is disjoint from every id or
/// batch issued afterwards, because each issue advances the counter past all
/// ids it handed out.
pub proof fn lemma_fresh_ids_disjoint(c: int, n: int, m: int)
    requires
        n >= 0,
        m >= 0,
    ensures
        forall|i: int| #[trigger] in_id_range(c, c + n, i) ==> !in_id_range(c + n, c + n + m, i),
{
}

} // verus!
