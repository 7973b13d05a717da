//! Component types, their interned ids, and change ticks.
use std::any::TypeId;
use vstd::prelude::*;

verus! {

/// Where a component type's values are stored.
///
/// Table storage packs components of entities with identical component sets
/// into shared columns, which is fastest to iterate. Sparse storage keeps a
/// per-type sparse set, so attaching or removing the component never moves
/// the entity's other data.
#[derive(Clone, Copy, PartialEq, Eq, Structural, Debug, Hash)]
pub enum StorageKind {
    Table,
    Sparse,
}

/// A type that can be attached to an entity.
pub trait Component: 'static + Send + Sync {
    /// Where values of this type are stored; table storage unless overridden.
    const STORAGE: StorageKind = StorageKind::Table;

    /// The name recorded for diagnostics when the type is registered through
    /// [`ComponentRegistry::register`]; a caller that knows the type's own
    /// name registers it with [`ComponentRegistry::register_key`] instead.
    const NAME: &'static str = "<component>";
}

/// A dense, world-local identifier for a registered component type.
#[derive(Clone, Copy, PartialEq, Eq, Structural, Hash, PartialOrd, Ord, Debug)]
pub struct ComponentId(pub u32);

impl ComponentId {
    /// The id as an index into per-component tables.
    pub fn index(self) -> (r: usize)
        ensures
            r == self.0,
    {
        self.0 as usize
    }
}

/// Metadata recorded when a component type is registered.
#[derive(Clone, Copy, Debug)]
pub struct ComponentInfo {
    pub id: ComponentId,
    /// The type's name, for diagnostics.
    pub name: &'static str,
    pub storage: StorageKind,
}

#[verifier::external_type_specification]
#[verifier::external_body]
pub struct ExTypeId(TypeId);

/// `std::any::TypeId::of::<T>()`. Its value identifies `T` for the run of the
/// program; nothing is claimed about it here.
#[verifier::external_body]
fn type_id_of<T: 'static>() -> (r: TypeId) {
    TypeId::of::<T>()
}

/// `<TypeId as PartialEq>::eq`: true exactly when the two ids are the same
/// value.
#[verifier::external_body]
fn same_type(a: &TypeId, b: &TypeId) -> (r: bool)
    ensures
        r == (*a == *b),
{
    *a == *b
}

/// Interns component types into dense [`ComponentId`]s.
#[derive(Debug)]
pub struct ComponentRegistry {
    infos: Vec<ComponentInfo>,
    keys: Vec<TypeId>,
}

impl ComponentRegistry {
    /// The type key of each registered component, in id order.
    pub closed spec fn keys(&self) -> Seq<TypeId> {
        self.keys@
    }

    /// The metadata of each registered component, in id order.
    pub closed spec fn infos(&self) -> Seq<ComponentInfo> {
        self.infos@
    }

    /// Ids are dense and keys are distinct.
    pub closed spec fn wf(&self) -> bool {
        &&& self.keys@.len() == self.infos@.len()
        &&& self.infos@.len() <= 0x1_0000_0000
        &&& forall|i: int| 0 <= i < self.infos@.len() ==> (#[trigger] self.infos@[i]).id.0 == i
        &&& forall|i: int, j: int|
            0 <= i < self.keys@.len() && 0 <= j < self.keys@.len() && i != j ==> (
            #[trigger] self.keys@[i]) != (#[trigger] self.keys@[j])
    }

    /// An empty registry.
    pub fn new() -> (r: ComponentRegistry)
        ensures
            r.wf(),
            r.keys().len() == 0,
    {
        ComponentRegistry { infos: Vec::new(), keys: Vec::new() }
    }

    /// Interns a type key: the existing id if the key is already registered,
    /// otherwise the next dense id. Ids must not run out.
    pub fn register_key(&mut self, key: TypeId, name: &'static str, storage: StorageKind) -> (r:
        ComponentId)
        requires
            old(self).wf(),
            old(self).keys().contains(key) || old(self).keys().len() < 0x1_0000_0000,
        ensures
            final(self).wf(),
            old(self).keys().contains(key) ==> {
                &&& final(self).keys() == old(self).keys()
                &&& final(self).infos() == old(self).infos()
                &&& old(self).keys()[r.0 as int] == key
            },
            !old(self).keys().contains(key) ==> {
                &&& r.0 == old(self).keys().len()
                &&& final(self).keys() == old(self).keys().push(key)
                &&& final(self).infos() == old(self).infos().push(
                    ComponentInfo { id: r, name, storage },
                )
            },
            r.0 < final(self).keys().len(),
            final(self).keys()[r.0 as int] == key,
    {
        let mut i: usize = 0;
        while i < self.keys.len()
            invariant
                i <= self.keys@.len(),
                self.wf(),
                forall|j: int| 0 <= j < i ==> self.keys@[j] != key,
            decreases self.keys@.len() - i,
        {
            if same_type(&self.keys[i], &key) {
                return ComponentId(i as u32);
            }
            i = i + 1;
        }
        let id = ComponentId(self.infos.len() as u32);
        self.infos.push(ComponentInfo { id, name, storage });
        self.keys.push(key);
        id
    }

    /// Registers `T`, returning its id; registering twice returns the same
    /// id. Ids must not run out.
    pub fn register<T: Component>(&mut self) -> (r: ComponentId)
        requires
            old(self).wf(),
            old(self).keys().len() < 0x1_0000_0000,
        ensures
            final(self).wf(),
            r.0 < final(self).keys().len(),
            old(self).keys().contains(final(self).keys()[r.0 as int]) ==> final(self).keys()
                == old(self).keys() && final(self).infos() == old(self).infos(),
            !old(self).keys().contains(final(self).keys()[r.0 as int]) ==> r.0 == old(self).keys().len() && final(self).keys().len() == old(self).keys().len() + 1
                && final(self).infos().last().storage == T::STORAGE,
    {
        self.register_key(type_id_of::<T>(), T::NAME, T::STORAGE)
    }

    /// The id of a registered type key, without registering it.
    pub fn get_key(&self, key: &TypeId) -> (r: Option<ComponentId>)
        requires
            self.wf(),
        ensures
            r is Some <==> self.keys().contains(*key),
            r matches Some(id) ==> id.0 < self.keys().len() && self.keys()[id.0 as int] == *key,
    {
        let mut i: usize = 0;
        while i < self.keys.len()
            invariant
                i <= self.keys@.len(),
                self.wf(),
                forall|j: int| 0 <= j < i ==> self.keys@[j] != *key,
            decreases self.keys@.len() - i,
        {
            if same_type(&self.keys[i], key) {
                return Some(ComponentId(i as u32));
            }
            i = i + 1;
        }
        None
    }

    /// The id of `T`, without registering it: the position of `T`'s type key
    /// among the registered keys, or `None` when that key is not registered.
    /// Which key `T` has is `TypeId::of::<T>()`, which is not given a name
    /// here, so the contract speaks of it as one key `k`.
    pub fn get_id<T: Component>(&self) -> (r: Option<ComponentId>)
        requires
            self.wf(),
        ensures
            r matches Some(id) ==> id.0 < self.keys().len(),
            exists|k: TypeId|
                {
                    &&& (r is Some <==> #[trigger] self.keys().contains(k))
                    &&& (r matches Some(id) ==> self.keys()[id.0 as int] == k)
                },
    {
        let key = type_id_of::<T>();
        let r = self.get_key(&key);
        assert(r is Some <==> self.keys().contains(key));
        r
    }

    /// The metadata recorded for an id.
    pub fn info(&self, id: ComponentId) -> (r: Option<&ComponentInfo>)
        ensures
            r is Some <==> id.0 < self.infos().len(),
            r matches Some(info) ==> *info == self.infos()[id.0 as int],
    {
        if id.index() < self.infos.len() {
            Some(&self.infos[id.index()])
        } else {
            None
        }
    }

    /// The registered type name, or `"<unregistered>"` for an unknown id.
    pub fn name(&self, id: ComponentId) -> (r: &'static str)
        ensures
            id.0 < self.infos().len() ==> r == self.infos()[id.0 as int].name,
    {
        if id.index() < self.infos.len() {
            self.infos[id.index()].name
        } else {
            "<unregistered>"
        }
    }

    /// Number of registered component types.
    pub fn len(&self) -> (r: usize)
        ensures
            r == self.infos().len(),
    {
        self.infos.len()
    }

    /// True when no component type is registered.
    pub fn is_empty(&self) -> (r: bool)
        ensures
            r == (self.infos().len() == 0),
    {
        self.infos.len() == 0
    }

    /// Every registered component's metadata, in id order.
    pub fn iter(&self) -> (r: &[ComponentInfo])
        ensures
            r@ == self.infos(),
    {
        self.infos.as_slice()
    }
}

impl Default for ComponentRegistry {
    fn default() -> (r: ComponentRegistry)
        ensures
            r.wf(),
            r.keys().len() == 0,
    {
        ComponentRegistry::new()
    }
}

/// A monotonically increasing change counter, compared with wrap-around so it
/// may run indefinitely.
#[derive(Clone, Copy, PartialEq, Eq, Structural, PartialOrd, Ord, Debug, Default, Hash)]
pub struct Tick(pub u32);

/// `a` is newer than `b` when it is a nonzero distance ahead of it, modulo
/// 2^32, by less than half the counter's range.
pub open spec fn tick_newer(a: u32, b: u32) -> bool {
    let d = vstd::wrapping::u32_specs::wrapping_sub(a, b);
    d > 0 && d < u32::MAX / 2
}

impl Tick {
    /// Tick zero.
    pub fn zero() -> (r: Tick)
        ensures
            r == Tick(0),
    {
        Tick(0)
    }

    /// Advances by one, wrapping at `u32::MAX`.
    pub fn advance(&mut self)
        ensures
            final(self).0 == vstd::wrapping::u32_specs::wrapping_add(old(self).0, 1),
    {
        self.0 = self.0.wrapping_add(1);
    }

    /// True when `self` happened after `other`, treating the counter as
    /// circular: a tick just past the wrap point still reads as newer.
    pub fn is_newer_than(self, other: Tick) -> (r: bool)
        ensures
            r == tick_newer(self.0, other.0),
    {
        let d = self.0.wrapping_sub(other.0);
        d > 0 && d < u32::MAX / 2
    }
}

/// No tick is newer than itself, and of two distinct ticks less than half
/// the range apart, exactly one is newer than the other.
pub proof fn lemma_tick_order(a: u32, b: u32)
    ensures
        !tick_newer(a, a),
        tick_newer(a, b) ==> !tick_newer(b, a),
{
}

} // verus!
