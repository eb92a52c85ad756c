//! The component registry and storage.
//!
//! The storage binds entities to their components. Each registered component
//! type has a sparse set of its own, keyed by entity; each live entity has a
//! bit set with one flag for each component type it carries. Attaching and
//! detaching components is deferred: a request is recorded, and
//! [`ECSStorage::update_archtypes`] applies what was recorded.

pub mod archtype;
pub mod component;
pub mod entity;
pub mod query;
pub mod system;

use vstd::prelude::*;
use crate::data_structures::bit_set::BitSet;
use crate::data_structures::bit_set::bit_of;
use crate::data_structures::bit_set::union_words;
use crate::data_structures::bit_set::lemma_union_bits;
use crate::data_structures::bit_set::with_flag;
use crate::data_structures::bit_set::lemma_set_then_get;
use crate::data_structures::bit_set::lemma_flag_position;
use crate::data_structures::sparse_set::SparseSet;
use crate::data_structures::sparse_set::entries_map;
use crate::data_structures::sparse_set::swap_removed;
use crate::ecs::archtype::ArchTypeUUID;
use crate::ecs::component::ComponentTypeUUID;
use crate::ecs::entity::EntityUUID;
use crate::ecs::system::Phase;
use crate::ecs::system::System;
use crate::ecs::system::hook_effect;
use crate::ecs::system::phase_ran;

verus! {

/// A recorded request to attach a value (`Some`) or to detach (`None`).
struct PendingChange<C> {
    entity: usize,
    component_type: usize,
    value: Option<C>,
}

/// The entity and the component type that a request is about.
spec fn change_key<C>(change: PendingChange<C>) -> (usize, usize) {
    (change.entity, change.component_type)
}

/// The requests as a map from entity and component type to what is asked.
/// Where several requests are about one pair, the one recorded last counts.
spec fn pending_map<C>(changes: Seq<PendingChange<C>>) -> Map<(usize, usize), Option<C>>
    decreases changes.len(),
{
    if changes.len() == 0 {
        Map::empty()
    } else {
        pending_map(changes.drop_last()).insert(change_key(changes.last()), changes.last().value)
    }
}

/// Whether the bit set of entity `e` has the flag of component type `t`.
spec fn flagged(signatures: Map<usize, BitSet>, e: usize, t: int) -> bool {
    signatures.contains_key(e) && signatures[e].has(t)
}

/// Whether the sparse set of component type `t` holds a value for entity `e`.
spec fn stored<C>(storage: Seq<SparseSet<C, 1000>>, e: usize, t: int) -> bool {
    0 <= t < storage.len() && storage[t]@.contains_key(e)
}

/// The bit sets are authoritative: an entity has the flag of a component type
/// exactly when that type's sparse set holds a value for it.
spec fn agree<C>(
    signatures: Map<usize, BitSet>,
    storage: Seq<SparseSet<C, 1000>>,
    e: usize,
    t: int,
) -> bool {
    flagged(signatures, e, t) == stored(storage, e, t)
}

/// One valid sparse set and one single-flag bit set for each registered
/// type, and no token registered twice.
spec fn tables_ok<C>(
    storage: Seq<SparseSet<C, 1000>>,
    component_bitsets: Seq<BitSet>,
    type_keys: Seq<ArchTypeUUID>,
) -> bool {
    &&& storage.len() == type_keys.len()
    &&& component_bitsets.len() == type_keys.len()
    &&& type_keys.no_duplicates()
    &&& forall|t: int| 0 <= t < storage.len() ==> (#[trigger] storage[t]).wf()
    &&& forall|t: int|
        0 <= t < component_bitsets.len() ==> (#[trigger] component_bitsets[t])@ == with_flag(
            Seq::<usize>::empty(),
            t,
            true,
        )
}

/// Every identity below the counter is live or free, never both, and none is
/// free twice.
spec fn ids_ok(free: Seq<usize>, next: usize, live: Set<usize>) -> bool {
    &&& free.no_duplicates()
    &&& forall|i: int| 0 <= i < free.len() ==>
        (#[trigger] free[i]) < next && !live.contains(free[i])
    &&& forall|e: usize| live.contains(e) ==> e < next
}

/// The stored bit sets as a map from signature to words.
spec fn signature_map(keys: Seq<ArchTypeUUID>, bitsets: Seq<BitSet>) -> Map<
    ArchTypeUUID,
    Seq<usize>,
> {
    Map::new(|k: ArchTypeUUID| keys.contains(k), |k: ArchTypeUUID| bitsets[keys.index_of(k)]@)
}

/// Storing a bit set under a fresh signature binds it and leaves the other
/// signatures alone.
proof fn lemma_signature_push(
    keys: Seq<ArchTypeUUID>,
    bitsets: Seq<BitSet>,
    key: ArchTypeUUID,
    bits: BitSet,
)
    requires
        keys.no_duplicates(),
        keys.len() == bitsets.len(),
        !keys.contains(key),
    ensures
        keys.push(key).no_duplicates(),
        signature_map(keys.push(key), bitsets.push(bits)) == signature_map(keys, bitsets).insert(
            key,
            bits@,
        ),
{
    let keys2 = keys.push(key);
    let bitsets2 = bitsets.push(bits);
    assert forall|i: int, j: int|
        0 <= i < keys2.len() && 0 <= j < keys2.len() && i != j implies keys2[i] != keys2[j] by {
        if i < keys.len() {
            assert(keys.contains(keys[i]));
        }
        if j < keys.len() {
            assert(keys.contains(keys[j]));
        }
    }
    let m1 = signature_map(keys2, bitsets2);
    let m2 = signature_map(keys, bitsets).insert(key, bits@);
    assert forall|k: ArchTypeUUID| m1.contains_key(k) <==> m2.contains_key(k) by {
        if keys2.contains(k) {
            let i = keys2.index_of(k);
            if i < keys.len() {
                assert(keys[i] == k);
            }
        }
        if keys.contains(k) {
            let i = keys.index_of(k);
            assert(keys2[i] == k);
        }
        if k == key {
            assert(keys2[keys.len() as int] == k);
        }
    }
    assert forall|k: ArchTypeUUID| m1.contains_key(k) implies m1[k] == m2[k] by {
        let i = keys2.index_of(k);
        if k == key {
            assert(keys2[keys.len() as int] == k);
        } else {
            assert(keys[i] == k);
            assert(keys.index_of(k) == i);
        }
    }
    assert(m1 =~= m2);
}

/// The words of the bit set of a combination of component types: one flag
/// for each listed type that is among the first `count` identities.
pub open spec fn archtype_words(types: Seq<usize>, count: nat) -> Seq<usize>
    decreases types.len(),
{
    if types.len() == 0 {
        Seq::empty()
    } else if types.last() < count {
        union_words(
            archtype_words(types.drop_last(), count),
            with_flag(Seq::<usize>::empty(), types.last() as int, true),
        )
    } else {
        archtype_words(types.drop_last(), count)
    }
}

/// The flags of a combination are those of its listed types.
pub proof fn lemma_archtype_bits(types: Seq<usize>, count: nat, index: int)
    ensures
        bit_of(archtype_words(types, count), index) <==> 0 <= index < count && exists|i: int|
            0 <= i < types.len() && #[trigger] types[i] == index,
    decreases types.len(),
{
    if index >= 0 {
        lemma_flag_position(index);
    }
    if types.len() == 0 {
    } else {
        let rest = types.drop_last();
        let last = types.last();
        let listed = exists|i: int| 0 <= i < types.len() && #[trigger] types[i] == index;
        let listed_before = exists|i: int| 0 <= i < rest.len() && #[trigger] rest[i] == index;
        lemma_archtype_bits(rest, count, index);
        assert(listed <==> listed_before || last == index) by {
            if listed {
                let i = choose|i: int| 0 <= i < types.len() && #[trigger] types[i] == index;
                if i < rest.len() {
                    assert(rest[i] == index);
                }
            }
            if listed_before {
                let i = choose|i: int| 0 <= i < rest.len() && #[trigger] rest[i] == index;
                assert(types[i] == index);
            }
            if last == index {
                assert(types[types.len() - 1] == index);
            }
        }
        if last < count {
            let single = with_flag(Seq::<usize>::empty(), last as int, true);
            lemma_union_bits(archtype_words(rest, count), single, index);
            lemma_set_then_get(Seq::<usize>::empty(), last as int, true);
            assert(!bit_of(Seq::<usize>::empty(), index));
        }
    }
}

/// What a request makes of a component: detaching leaves none; attaching
/// keeps the value that is there, and puts the new one where there is none.
pub open spec fn resolved<C>(before: Option<C>, request: Option<C>) -> Option<C> {
    match request {
        None => None,
        Some(value) => match before {
            Some(kept) => Some(kept),
            None => Some(value),
        },
    }
}

/// The storage of all components of all entities. `C` is the type of a
/// component value.
pub struct ECSStorage<C> {
    storage: Vec<SparseSet<C, 1000>>,
    component_bitsets: Vec<BitSet>,
    type_keys: Vec<ArchTypeUUID>,
    entity_components: SparseSet<BitSet, 1000>,
    free_entities: Vec<usize>,
    next_entity: usize,
    changes: Vec<PendingChange<C>>,
    archtype_keys: Vec<ArchTypeUUID>,
    archtype_bitsets: Vec<BitSet>,
}

impl<C> ECSStorage<C> {
    /// The tokens of the registered component types; the identity of a type
    /// is the position of its token.
    pub closed spec fn type_keys(&self) -> Seq<ArchTypeUUID> {
        self.type_keys@
    }

    /// Number of registered component types.
    pub open spec fn type_count(&self) -> nat {
        self.type_keys().len()
    }

    /// The live entities.
    pub closed spec fn entities(&self) -> Set<usize> {
        self.entity_components@.dom()
    }

    /// Whether the entity is live.
    pub open spec fn has(&self, entity: EntityUUID) -> bool {
        self.entities().contains(entity.0)
    }

    /// The words of the bit set of a live entity.
    pub closed spec fn signature(&self, entity: usize) -> Seq<usize> {
        self.entity_components@[entity]@
    }

    /// The entities that have a component of type `t`, in packing order.
    pub closed spec fn component_keys(&self, t: usize) -> Seq<usize> {
        if t < self.storage@.len() {
            self.storage@[t as int].keys()
        } else {
            Seq::empty()
        }
    }

    /// The component values of type `t`, in packing order.
    pub closed spec fn component_values(&self, t: usize) -> Seq<C> {
        if t < self.storage@.len() {
            self.storage@[t as int].values()
        } else {
            Seq::empty()
        }
    }

    /// The components of type `t`, by entity.
    pub open spec fn components(&self, t: usize) -> Map<usize, C> {
        entries_map(self.component_keys(t), self.component_values(t))
    }

    /// The component of type `t` of an entity, if it has one.
    pub open spec fn component(&self, t: usize, entity: usize) -> Option<C> {
        if self.components(t).contains_key(entity) {
            Some(self.components(t)[entity])
        } else {
            None
        }
    }

    /// The recorded requests: for an entity and a component type, the value
    /// to attach, or `None` to detach.
    pub closed spec fn pending(&self) -> Map<(usize, usize), Option<C>> {
        pending_map(self.changes@)
    }

    /// The identities that were taken back and not handed out again; the
    /// last one is handed out next.
    pub closed spec fn free_ids(&self) -> Seq<usize> {
        self.free_entities@
    }

    /// The identity that is handed out when none is free.
    pub closed spec fn next_id(&self) -> usize {
        self.next_entity
    }

    /// The bit sets that were stored under a signature, by signature.
    pub closed spec fn archtypes(&self) -> Map<ArchTypeUUID, Seq<usize>> {
        signature_map(self.archtype_keys@, self.archtype_bitsets@)
    }

    /// Whether no identity is left to hand out.
    pub open spec fn exhausted(&self) -> bool {
        self.free_ids().len() == 0 && self.next_id() == usize::MAX
    }

    /// Validity of the storage.
    pub closed spec fn wf(&self) -> bool {
        &&& tables_ok(self.storage@, self.component_bitsets@, self.type_keys@)
        &&& self.entity_components.wf()
        &&& forall|e: usize, t: int|
            #![trigger agree(self.entity_components@, self.storage@, e, t)]
            #![trigger flagged(self.entity_components@, e, t)]
            agree(self.entity_components@, self.storage@, e, t)
        &&& ids_ok(self.free_entities@, self.next_entity, self.entity_components@.dom())
        &&& self.archtype_keys@.no_duplicates()
        &&& self.archtype_keys@.len() == self.archtype_bitsets@.len()
    }

    /// What validity means to a caller: components belong to live entities,
    /// exactly those whose bit set has the flag of the component type; the
    /// sequences of a type are as long as each other and name no entity
    /// twice; and no token is registered twice.
    pub proof fn lemma_wf(&self)
        requires
            self.wf(),
        ensures
            self.type_keys().no_duplicates(),
            self.entities().finite(),
            forall|t: usize|
                (#[trigger] self.component_keys(t)).len() == self.component_values(t).len()
                    && self.component_keys(t).no_duplicates(),
            forall|t: usize, e: usize| #[trigger]
                self.components(t).contains_key(e) <==> self.entities().contains(e) && bit_of(
                    self.signature(e),
                    t as int,
                ),
            forall|t: usize, e: usize| #[trigger]
                self.components(t).contains_key(e) ==> t < self.type_count(),
            forall|t: usize|
                t >= self.type_count() ==>
                    #[trigger] self.component_keys(t) == Seq::<usize>::empty()
                    && self.component_values(t) == Seq::<C>::empty(),
            forall|i: int|
                0 <= i < self.free_ids().len() ==> !self.entities().contains(
                    #[trigger] self.free_ids()[i],
                ),
            !self.entities().contains(self.next_id()),
    {
        self.entity_components.lemma_view_len();
        assert forall|t: usize|
            (#[trigger] self.component_keys(t)).len() == self.component_values(t).len()
                && self.component_keys(t).no_duplicates() by {
            if t < self.storage@.len() {
                assert(self.storage@[t as int].wf());
            }
        }
        assert forall|t: usize, e: usize| #[trigger]
            self.components(t).contains_key(e) <==> self.entities().contains(e) && bit_of(
                self.signature(e),
                t as int,
            ) by {
            assert(agree(self.entity_components@, self.storage@, e, t as int));
        }
        assert forall|t: usize, e: usize| #[trigger]
            self.components(t).contains_key(e) implies t < self.type_count() by {
            if t >= self.storage@.len() {
                assert(!Seq::<usize>::empty().contains(e));
            }
        }
        if self.entities().contains(self.next_id()) {
            assert(self.next_id() < self.next_entity);
        }
    }

    /// A storage without entities, component types or requests.
    pub fn new() -> (r: Self)
        ensures
            r.wf(),
            r.type_keys() == Seq::<ArchTypeUUID>::empty(),
            r.entities() == Set::<usize>::empty(),
            r.pending() == Map::<(usize, usize), Option<C>>::empty(),
            r.free_ids() == Seq::<usize>::empty(),
            r.next_id() == 0,
            r.archtypes() == Map::<ArchTypeUUID, Seq<usize>>::empty(),
            forall|t: usize|
                #[trigger] r.component_keys(t) == Seq::<usize>::empty() && r.component_values(t)
                    == Seq::<C>::empty(),
    {
        let r = Self {
            storage: Vec::new(),
            component_bitsets: Vec::new(),
            type_keys: Vec::new(),
            entity_components: SparseSet::new(),
            free_entities: Vec::new(),
            next_entity: 0,
            changes: Vec::new(),
            archtype_keys: Vec::new(),
            archtype_bitsets: Vec::new(),
        };
        proof {
            assert(r.entities() =~= Set::<usize>::empty());
            assert(r.pending() =~= Map::<(usize, usize), Option<C>>::empty());
            assert(r.archtypes() =~= Map::<ArchTypeUUID, Seq<usize>>::empty());
            assert forall|e: usize, t: int| #[trigger]
                agree(r.entity_components@, r.storage@, e, t) by {}
        }
        r
    }

    /// The identity of the component type with the given token, if the token
    /// is registered.
    pub fn component_type(&self, key: ArchTypeUUID) -> (r: Option<ComponentTypeUUID>)
        requires
            self.wf(),
        ensures
            r is Some <==> self.type_keys().contains(key),
            r matches Some(t) ==> t < self.type_count() && self.type_keys()[t as int] == key,
    {
        let mut i: usize = 0;
        while i < self.type_keys.len()
            invariant
                i <= self.type_keys@.len(),
                forall|j: int| 0 <= j < i ==> self.type_keys@[j] != key,
            decreases self.type_keys@.len() - i,
        {
            if self.type_keys[i] == key {
                return Some(i);
            }
            i = i + 1;
        }
        None
    }

    /// The identity of the component type with the given token. A token that
    /// is not registered yet gets the next identity and an empty sparse set of
    /// its own; a registered token keeps the identity it has. Nothing else
    /// changes.
    pub fn register(&mut self, key: ArchTypeUUID) -> (t: ComponentTypeUUID)
        requires
            old(self).wf(),
        ensures
            final(self).wf(),
            t < final(self).type_count(),
            final(self).type_keys()[t as int] == key,
            old(self).type_keys().contains(key) ==>
                final(self).type_keys() == old(self).type_keys(),
            !old(self).type_keys().contains(key) ==>
                final(self).type_keys() == old(self).type_keys().push(key) && t
                    == old(self).type_count(),
            final(self).entities() == old(self).entities(),
            forall|e: usize| final(self).signature(e) == old(self).signature(e),
            forall|u: usize|
                final(self).component_keys(u) == old(self).component_keys(u)
                    && final(self).component_values(u) == old(self).component_values(u),
            final(self).pending() == old(self).pending(),
            final(self).free_ids() == old(self).free_ids(),
            final(self).next_id() == old(self).next_id(),
            final(self).archtypes() == old(self).archtypes(),
    {
        match self.component_type(key) {
            Some(t) => {
                return t;
            },
            None => {},
        }
        let t: usize = self.type_keys.len();
        let ghost before = *self;
        self.type_keys.push(key);
        let fresh: SparseSet<C, 1000> = SparseSet::new();
        self.storage.push(fresh);
        let mut bits = BitSet::new();
        bits.on(t);
        self.component_bitsets.push(bits);
        proof {
            assert forall|i: int, j: int|
                0 <= i < self.type_keys@.len() && 0 <= j < self.type_keys@.len() && i
                    != j implies self.type_keys@[i] != self.type_keys@[j] by {
                if i < t {
                    assert(before.type_keys@.contains(before.type_keys@[i]));
                }
                if j < t {
                    assert(before.type_keys@.contains(before.type_keys@[j]));
                }
            }
            assert forall|e: usize, u: int| #[trigger]
                agree(self.entity_components@, self.storage@, e, u) by {
                assert(agree(before.entity_components@, before.storage@, e, u));
            }
            assert forall|u: usize|
                self.component_keys(u) == before.component_keys(u) && self.component_values(u)
                    == before.component_values(u) by {
                if u == t {
                    assert(self.storage@[t as int].keys() =~= Seq::<usize>::empty());
                }
            }
        }
        t
    }

    /// Whether the entity is live.
    pub fn has_entity(&self, entity: EntityUUID) -> (r: bool)
        requires
            self.wf(),
        ensures
            r == self.has(entity),
    {
        self.entity_components.contains(entity.0)
    }

    /// Number of live entities.
    pub fn entity_count(&self) -> (n: usize)
        requires
            self.wf(),
        ensures
            n == self.entities().len(),
    {
        self.entity_components.len()
    }

    /// Number of registered component types.
    pub fn component_type_count(&self) -> (n: usize)
        ensures
            n == self.type_count(),
    {
        self.type_keys.len()
    }

    /// Whether an identity is left for one more entity.
    pub fn can_create_entity(&self) -> (r: bool)
        ensures
            r == !self.exhausted(),
    {
        self.free_entities.len() > 0 || self.next_entity < usize::MAX
    }

    /// Makes a new entity without components. Its identity is the one that
    /// was taken back last, where one is free, and the counter's value
    /// otherwise, after which the counter goes up by one.
    pub fn create_entity(&mut self) -> (entity: EntityUUID)
        requires
            old(self).wf(),
            !old(self).exhausted(),
        ensures
            final(self).wf(),
            !old(self).has(entity),
            final(self).entities() == old(self).entities().insert(entity.0),
            final(self).signature(entity.0) == Seq::<usize>::empty(),
            forall|e: usize| e != entity.0 ==> final(self).signature(e) == old(self).signature(e),
            old(self).free_ids().len() > 0 ==>
                entity.0 == old(self).free_ids().last() && final(self).free_ids()
                    == old(self).free_ids().drop_last() && final(self).next_id()
                        == old(self).next_id(),
            old(self).free_ids().len() == 0 ==>
                entity.0 == old(self).next_id() && final(self).free_ids() == old(self).free_ids()
                    && final(self).next_id() == old(self).next_id()
                + 1,
            final(self).type_keys() == old(self).type_keys(),
            forall|u: usize|
                final(self).component_keys(u) == old(self).component_keys(u)
                    && final(self).component_values(u) == old(self).component_values(u),
            final(self).pending() == old(self).pending(),
            final(self).archtypes() == old(self).archtypes(),
    {
        let ghost before = *self;
        let id: usize = match self.free_entities.pop() {
            Some(id) => {
                proof {
                    let last = before.free_entities@.len() - 1;
                    assert(before.free_entities@[last] == id);
                    assert forall|i: int| 0 <= i < self.free_entities@.len() implies (
                    #[trigger] self.free_entities@[i]) != id by {
                        assert(self.free_entities@[i] == before.free_entities@[i]);
                    }
                }
                id
            },
            None => {
                let id: usize = self.next_entity;
                self.next_entity = id + 1;
                id
            },
        };
        assert(!before.entity_components@.contains_key(id));
        assert(id / 1000 < usize::MAX);
        self.entity_components.set(id, BitSet::new());
        proof {
            assert(self.entities() =~= before.entities().insert(id));
            assert forall|e: usize, t: int| #[trigger]
                agree(self.entity_components@, self.storage@, e, t) by {
                assert(agree(before.entity_components@, before.storage@, e, t));
            }
            assert forall|i: int| 0 <= i < self.free_entities@.len() implies (
            #[trigger] self.free_entities@[i]) < self.next_entity
                && !self.entity_components@.dom().contains(self.free_entities@[i]) by {
                assert(self.free_entities@[i] == before.free_entities@[i]);
            }
        }
        EntityUUID(id)
    }

    /// The component of type `t` that an entity has once the recorded
    /// requests are applied.
    pub open spec fn committed(&self, t: usize, entity: usize) -> Option<C> {
        if self.pending().contains_key((entity, t)) && self.entities().contains(entity) && t
            < self.type_count() {
            resolved(self.component(t, entity), self.pending()[(entity, t)])
        } else {
            self.component(t, entity)
        }
    }

    /// A request to attach, for a live entity that has no component of a
    /// registered type, gives the entity the requested value when it is
    /// applied.
    pub proof fn lemma_commit_attaches(&self, entity: usize, t: usize, value: C)
        requires
            self.entities().contains(entity),
            t < self.type_count(),
            self.pending().contains_key((entity, t)),
            self.pending()[(entity, t)] == Some(value),
            self.component(t, entity) is None,
        ensures
            self.committed(t, entity) == Some(value),
    {
    }

    /// A request to attach leaves a component that is there as it is.
    pub proof fn lemma_commit_keeps(&self, entity: usize, t: usize)
        requires
            self.pending().contains_key((entity, t)),
            self.pending()[(entity, t)] is Some,
            self.component(t, entity) is Some,
        ensures
            self.committed(t, entity) == self.component(t, entity),
    {
    }

    /// A request to detach, for a live entity and a registered type, leaves
    /// the entity without a component of that type when it is applied.
    pub proof fn lemma_commit_detaches(&self, entity: usize, t: usize)
        requires
            self.entities().contains(entity),
            t < self.type_count(),
            self.pending().contains_key((entity, t)),
            self.pending()[(entity, t)] is None,
        ensures
            self.committed(t, entity) is None,
    {
    }

    /// Where nothing is requested for an entity and a type, applying the
    /// requests changes nothing for them; and nothing is ever attached to an
    /// entity that is not live or for a type that is not registered.
    pub proof fn lemma_commit_leaves(&self, entity: usize, t: usize)
        requires
            self.wf(),
            !self.pending().contains_key((entity, t)) || !self.entities().contains(entity) || t
                >= self.type_count(),
        ensures
            self.committed(t, entity) == self.component(t, entity),
            !self.entities().contains(entity) || t >= self.type_count() ==> self.committed(
                t,
                entity,
            ) is None,
    {
        self.lemma_wf();
    }

    /// Removes an entity: every component it carries leaves the sparse set of
    /// its type, its bit set is dropped, and its identity becomes free.
    /// Returns whether the entity was live; where it was not, nothing changes.
    /// Requests that were recorded for the entity stay recorded.
    pub fn remove_entity(&mut self, entity: EntityUUID) -> (removed: bool)
        requires
            old(self).wf(),
        ensures
            final(self).wf(),
            removed == old(self).has(entity),
            !final(self).has(entity),
            final(self).entities() == old(self).entities().remove(entity.0),
            forall|e: usize| e != entity.0 ==> final(self).signature(e) == old(self).signature(e),
            forall|t: usize| !(#[trigger] final(self).components(t)).contains_key(entity.0),
            forall|t: usize| #[trigger]
                final(self).components(t) == old(self).components(t).remove(entity.0),
            forall|t: usize|
                old(self).components(t).contains_key(entity.0) ==>
                    (#[trigger] final(self).component_keys(t)) == swap_removed(
                    old(self).component_keys(t),
                    old(self).component_keys(t).index_of(entity.0),
                ) && final(self).component_values(t) == swap_removed(
                    old(self).component_values(t),
                    old(self).component_keys(t).index_of(entity.0),
                ),
            forall|t: usize|
                !old(self).components(t).contains_key(entity.0) ==>
                    (#[trigger] final(self).component_keys(t)) == old(self).component_keys(t)
                        && final(self).component_values(t) == old(self).component_values(t),
            removed ==> final(self).free_ids() == old(self).free_ids().push(entity.0),
            !removed ==> final(self).free_ids() == old(self).free_ids(),
            final(self).next_id() == old(self).next_id(),
            final(self).archtypes() == old(self).archtypes(),
            final(self).type_keys() == old(self).type_keys(),
            final(self).pending() == old(self).pending(),
    {
        let id: usize = entity.0;
        let ghost before = *self;
        proof {
            assert forall|t: usize| !self.components(t).contains_key(id) implies self.components(
                t,
            ).remove(id) == self.components(t) by {
                assert(self.components(t).remove(id) =~= self.components(t));
            }
        }
        if !self.entity_components.contains(id) {
            proof {
                assert(self.entities().remove(id) =~= self.entities());
                assert forall|t: usize| !self.components(t).contains_key(id) by {
                    assert(agree(self.entity_components@, self.storage@, id, t as int));
                    if t >= self.storage@.len() {
                        assert(!Seq::<usize>::empty().contains(id));
                    }
                }
            }
            return false;
        }
        let mut t: usize = 0;
        while t < self.storage.len()
            invariant
                before.wf(),
                t <= self.storage@.len(),
                self.storage@.len() == before.storage@.len(),
                self.entity_components == before.entity_components,
                self.component_bitsets == before.component_bitsets,
                self.type_keys == before.type_keys,
                self.free_entities == before.free_entities,
                self.next_entity == before.next_entity,
                self.changes == before.changes,
                self.archtype_keys == before.archtype_keys,
                self.archtype_bitsets == before.archtype_bitsets,
                forall|u: int|
                    0 <= u < t ==> removed_from(
                        before.storage@[u],
                        #[trigger] self.storage@[u],
                        id,
                    ),
                forall|u: int| t <= u < self.storage@.len() ==>
                    self.storage@[u] == before.storage@[u],
            decreases self.storage@.len() - t,
        {
            let flag: bool = match self.entity_components.get(id) {
                Some(bits) => bits.get(t),
                None => false,
            };
            proof {
                assert(agree(before.entity_components@, before.storage@, id, t as int));
                assert(before.storage@[t as int].wf());
            }
            if flag {
                self.storage[t].remove(id);
            } else {
                assert(before.storage@[t as int]@.remove(id) =~= before.storage@[t as int]@);
            }
            t = t + 1;
        }
        self.entity_components.remove(id);
        self.free_entities.push(id);
        proof {
            assert(self.entities() =~= before.entities().remove(id));
            assert forall|u: int| 0 <= u < self.storage@.len() implies (
            #[trigger] self.storage@[u]).wf() by {
                assert(removed_from(before.storage@[u], self.storage@[u], id));
            }
            assert forall|e: usize, u: int| #[trigger]
                agree(self.entity_components@, self.storage@, e, u) by {
                assert(agree(before.entity_components@, before.storage@, e, u));
                if 0 <= u < self.storage@.len() {
                    assert(removed_from(before.storage@[u], self.storage@[u], id));
                }
            }
            assert forall|i: int, j: int|
                0 <= i < self.free_entities@.len() && 0 <= j < self.free_entities@.len() && i
                    != j implies self.free_entities@[i] != self.free_entities@[j] by {
                if i < before.free_entities@.len() {
                    assert(!before.entities().contains(before.free_entities@[i]));
                }
                if j < before.free_entities@.len() {
                    assert(!before.entities().contains(before.free_entities@[j]));
                }
            }
            assert forall|i: int| 0 <= i < self.free_entities@.len() implies (
            #[trigger] self.free_entities@[i]) < self.next_entity
                && !self.entity_components@.dom().contains(self.free_entities@[i]) by {
                if i < before.free_entities@.len() {
                    assert(self.free_entities@[i] == before.free_entities@[i]);
                }
            }
            assert forall|u: usize| #[trigger]
                self.components(u) == before.components(u).remove(id) by {
                if u < self.storage@.len() {
                    assert(removed_from(before.storage@[u as int], self.storage@[u as int], id));
                } else {
                    assert(before.components(u).remove(id) =~= before.components(u));
                }
            }
            assert forall|u: usize|
                before.components(u).contains_key(id) implies (#[trigger] self.component_keys(u))
                == swap_removed(
                before.component_keys(u),
                before.component_keys(u).index_of(id),
            ) && self.component_values(u) == swap_removed(
                before.component_values(u),
                before.component_keys(u).index_of(id),
            ) by {
                if u < self.storage@.len() {
                    assert(removed_from(before.storage@[u as int], self.storage@[u as int], id));
                } else {
                    assert(!Seq::<usize>::empty().contains(id));
                }
            }
            assert forall|u: usize|
                !before.components(u).contains_key(id) implies (#[trigger] self.component_keys(
                u,
            )) == before.component_keys(u) && self.component_values(u) == before.component_values(
                u,
            ) by {
                if u < self.storage@.len() {
                    assert(removed_from(before.storage@[u as int], self.storage@[u as int], id));
                }
            }
        }
        true
    }

    /// Records a request after the requests that are recorded.
    fn record(&mut self, entity: usize, component_type: usize, value: Option<C>)
        requires
            old(self).wf(),
        ensures
            final(self).wf(),
            final(self).pending() == old(self).pending().insert((entity, component_type), value),
            final(self).storage == old(self).storage,
            final(self).component_bitsets == old(self).component_bitsets,
            final(self).type_keys == old(self).type_keys,
            final(self).entity_components == old(self).entity_components,
            final(self).free_entities == old(self).free_entities,
            final(self).next_entity == old(self).next_entity,
            final(self).archtype_keys == old(self).archtype_keys,
            final(self).archtype_bitsets == old(self).archtype_bitsets,
    {
        let change = PendingChange { entity, component_type, value };
        self.changes.push(change);
        proof {
            assert(self.changes@.drop_last() =~= old(self).changes@);
        }
    }

    /// Asks for `value` to become the component of type `component_type` of
    /// the entity. The request counts in the place of any earlier one for the
    /// same entity and type; it is applied by [`Self::update_archtypes`], and
    /// until then no component changes.
    pub fn add_component(
        &mut self,
        entity: EntityUUID,
        component_type: ComponentTypeUUID,
        value: C,
    )
        requires
            old(self).wf(),
        ensures
            final(self).wf(),
            final(self).pending() == old(self).pending().insert(
                (entity.0, component_type),
                Some(value),
            ),
            final(self).entities() == old(self).entities(),
            forall|e: usize| final(self).signature(e) == old(self).signature(e),
            forall|t: usize|
                final(self).component_keys(t) == old(self).component_keys(t)
                    && final(self).component_values(t) == old(self).component_values(t),
            final(self).type_keys() == old(self).type_keys(),
            final(self).free_ids() == old(self).free_ids(),
            final(self).next_id() == old(self).next_id(),
            final(self).archtypes() == old(self).archtypes(),
    {
        self.record(entity.0, component_type, Some(value));
    }

    /// Asks for the component of type `component_type` to leave the entity.
    /// The request counts in the place of any earlier one for the same entity
    /// and type; it is applied by [`Self::update_archtypes`], and until then
    /// no component changes.
    pub fn remove_component(&mut self, entity: EntityUUID, component_type: ComponentTypeUUID)
        requires
            old(self).wf(),
        ensures
            final(self).wf(),
            final(self).pending() == old(self).pending().insert(
                (entity.0, component_type),
                None,
            ),
            final(self).entities() == old(self).entities(),
            forall|e: usize| final(self).signature(e) == old(self).signature(e),
            forall|t: usize|
                final(self).component_keys(t) == old(self).component_keys(t)
                    && final(self).component_values(t) == old(self).component_values(t),
            final(self).type_keys() == old(self).type_keys(),
            final(self).free_ids() == old(self).free_ids(),
            final(self).next_id() == old(self).next_id(),
            final(self).archtypes() == old(self).archtypes(),
    {
        self.record(entity.0, component_type, None);
    }

    /// Applies the recorded requests and forgets them. A request for an
    /// entity that is not live, or for a component type that is not
    /// registered, is dropped. A request to attach gives the entity the value
    /// unless it has a component of that type already, and sets the type's
    /// flag in the entity's bit set; a request to detach removes the component
    /// and clears the flag. Where several requests were made for one entity
    /// and type, only the one recorded last is applied. The requests are
    /// taken from the last recorded to the first, so the packing order of what
    /// is attached is the reverse of the order of recording.
    pub fn update_archtypes(&mut self)
        requires
            old(self).wf(),
        ensures
            final(self).wf(),
            final(self).pending() == Map::<(usize, usize), Option<C>>::empty(),
            forall|t: usize, e: usize|
                #![trigger final(self).component(t, e)]
                #![trigger final(self).components(t).contains_key(e)]
                #![trigger final(self).components(t)[e]]
                final(self).component(t, e) == old(self).committed(t, e),
            forall|e: usize, t: usize|
                final(self).entities().contains(e) ==> (#[trigger] bit_of(
                    final(self).signature(e),
                    t as int,
                ) <==> old(self).committed(t, e) is Some),
            final(self).entities() == old(self).entities(),
            final(self).type_keys() == old(self).type_keys(),
            final(self).free_ids() == old(self).free_ids(),
            final(self).next_id() == old(self).next_id(),
            final(self).archtypes() == old(self).archtypes(),
    {
        let ghost pre = *self;
        let mut decided: SparseSet<BitSet, 1000> = SparseSet::new();
        proof {
            assert forall|t: usize, e: usize| #[trigger]
                stored_value(self.storage@, t, e) == pre.component(t, e) by {
                pre.lemma_stored_value(t, e);
            }
        }
        while self.changes.len() > 0
            invariant
                pre.wf(),
                tables_ok(self.storage@, self.component_bitsets@, self.type_keys@),
                self.entity_components.wf(),
                forall|e: usize, t: int| #[trigger]
                    agree(self.entity_components@, self.storage@, e, t),
                self.entity_components@.dom() == pre.entity_components@.dom(),
                self.type_keys == pre.type_keys,
                self.free_entities == pre.free_entities,
                self.next_entity == pre.next_entity,
                self.archtype_keys == pre.archtype_keys,
                self.archtype_bitsets == pre.archtype_bitsets,
                decided.wf(),
                forall|t: usize, e: usize| #[trigger]
                    stored_value(self.storage@, t, e) == (if flagged(decided@, e, t as int) {
                        pre.committed(t, e)
                    } else {
                        pre.component(t, e)
                    }),
                forall|t: usize, e: usize|
                    pre.entities().contains(e) && t < pre.type_count() && !flagged(
                        decided@,
                        e,
                        t as int,
                    ) ==> #[trigger] still_pending(self.changes@, pre.changes@, (e, t)),
            decreases self.changes@.len(),
        {
            let ghost cur = *self;
            let ghost marked = decided@;
            let change = self.changes.pop().unwrap();
            let PendingChange { entity, component_type, value } = change;
            assert(self.changes@ == cur.changes@.drop_last());
            assert(pending_map(cur.changes@) == pending_map(self.changes@).insert(
                (entity, component_type),
                value,
            ));
            let applies: bool = component_type < self.storage.len()
                && self.entity_components.contains(entity);
            let seen: bool = match decided.get(entity) {
                Some(bits) => bits.get(component_type),
                None => false,
            };
            if applies && !seen {
                proof {
                    assert(still_pending(cur.changes@, pre.changes@, (entity, component_type)));
                    assert(cur.storage@[component_type as int].wf());
                    assert(stored_value(cur.storage@, component_type, entity) == pre.component(
                        component_type,
                        entity,
                    ));
                }
                if decided.contains(entity) {
                    match decided.get_mut(entity) {
                        Some(bits) => {
                            bits.on(component_type);
                        },
                        None => {},
                    }
                } else {
                    let mut bits = BitSet::new();
                    bits.on(component_type);
                    decided.set(entity, bits);
                }
                match value {
                    Some(v) => {
                        let _ = self.storage[component_type].emplace(entity, v);
                        match self.entity_components.get_mut(entity) {
                            Some(bits) => {
                                bits.on(component_type);
                            },
                            None => {},
                        }
                    },
                    None => {
                        self.storage[component_type].remove(entity);
                        match self.entity_components.get_mut(entity) {
                            Some(bits) => {
                                bits.off(component_type);
                            },
                            None => {},
                        }
                    },
                }
                proof {
                    assert(self.entity_components@.dom() =~= cur.entity_components@.dom());
                    assert forall|t: int| 0 <= t < self.storage@.len() implies (
                    #[trigger] self.storage@[t]).wf() by {
                        if t != component_type {
                            assert(self.storage@[t] == cur.storage@[t]);
                        }
                    }
                    assert forall|e: usize, t: int| #[trigger]
                        agree(self.entity_components@, self.storage@, e, t) by {
                        assert(agree(cur.entity_components@, cur.storage@, e, t));
                        if 0 <= t < self.storage@.len() && t != component_type {
                            assert(self.storage@[t] == cur.storage@[t]);
                        }
                    }
                    assert forall|t: usize, e: usize|
                        flagged(decided@, e, t as int) == (flagged(marked, e, t as int) || (e
                            == entity && t == component_type)) by {}
                    assert forall|t: usize, e: usize| #[trigger]
                        stored_value(self.storage@, t, e) == (if flagged(decided@, e, t as int) {
                            pre.committed(t, e)
                        } else {
                            pre.component(t, e)
                        }) by {
                        assert(stored_value(cur.storage@, t, e)
                            == (if flagged(marked, e, t as int) {
                            pre.committed(t, e)
                        } else {
                            pre.component(t, e)
                        }));
                        if t < self.storage@.len() && t != component_type {
                            assert(self.storage@[t as int] == cur.storage@[t as int]);
                        }
                    }
                    assert forall|t: usize, e: usize|
                        pre.entities().contains(e) && t < pre.type_count() && !flagged(
                            decided@,
                            e,
                            t as int,
                        ) implies #[trigger] still_pending(self.changes@, pre.changes@, (e, t)) by {
                        assert(still_pending(cur.changes@, pre.changes@, (e, t)));
                    }
                }
            } else {
                proof {
                    assert forall|t: usize, e: usize|
                        pre.entities().contains(e) && t < pre.type_count() && !flagged(
                            decided@,
                            e,
                            t as int,
                        ) implies #[trigger] still_pending(self.changes@, pre.changes@, (e, t)) by {
                        assert(still_pending(cur.changes@, pre.changes@, (e, t)));
                    }
                }
            }
        }
        proof {
            assert(self.pending() =~= Map::<(usize, usize), Option<C>>::empty());
            assert forall|t: usize, e: usize| #[trigger]
                stored_value(self.storage@, t, e) == pre.committed(t, e) by {
                if !flagged(decided@, e, t as int) {
                    if pre.entities().contains(e) && t < pre.type_count() {
                        assert(still_pending(self.changes@, pre.changes@, (e, t)));
                    }
                }
            }
            assert forall|t: usize, e: usize|
                #![trigger self.component(t, e)]
                #![trigger self.components(t).contains_key(e)]
                #![trigger self.components(t)[e]]
                self.component(t, e) == pre.committed(t, e) by {
                self.lemma_stored_value(t, e);
                assert(stored_value(self.storage@, t, e) == pre.committed(t, e));
            }
            assert forall|e: usize, t: usize| self.entities().contains(e)
                implies (#[trigger] bit_of(
                self.signature(e),
                t as int,
            ) <==> pre.committed(t, e) is Some) by {
                assert(agree(self.entity_components@, self.storage@, e, t as int));
                self.lemma_stored_value(t, e);
                assert(stored_value(self.storage@, t, e) == pre.committed(t, e));
            }
        }
    }

    /// The public reading of a component is what the sparse sets hold.
    proof fn lemma_stored_value(&self, t: usize, e: usize)
        ensures
            stored_value(self.storage@, t, e) == self.component(t, e),
    {
        if t >= self.storage@.len() {
            assert(!Seq::<usize>::empty().contains(e));
        }
    }

    /// The component of type `component_type` of an entity, or `None` where
    /// the entity has none, is not live, or the type is not registered.
    pub fn get_component(&self, entity: EntityUUID, component_type: ComponentTypeUUID) -> (r:
        Option<&C>)
        requires
            self.wf(),
        ensures
            r is Some <==> self.components(component_type).contains_key(entity.0),
            r matches Some(value) ==> *value == self.components(component_type)[entity.0],
    {
        if component_type < self.storage.len() {
            proof {
                assert(self.storage@[component_type as int].wf());
            }
            self.storage[component_type].get(entity.0)
        } else {
            proof {
                assert(!Seq::<usize>::empty().contains(entity.0));
            }
            None
        }
    }

    /// Mutable access to the component of type `component_type` of an
    /// entity, or `None` where it has none. Writing through the reference
    /// changes that component and nothing else.
    pub fn get_component_mut(
        &mut self,
        entity: EntityUUID,
        component_type: ComponentTypeUUID,
    ) -> (r: Option<&mut C>)
        requires
            old(self).wf(),
        ensures
            r is Some <==> old(self).components(component_type).contains_key(entity.0),
            final(self).wf(),
            match r {
                Some(value) => *value == old(self).components(component_type)[entity.0]
                    && final(self).component_values(component_type) == old(self).component_values(
                    component_type,
                ).update(
                    old(self).component_keys(component_type).index_of(entity.0),
                    *final(value),
                ) && final(self).components(component_type) == old(self).components(
                    component_type,
                ).insert(entity.0, *final(value)),
                None => final(self).component_values(component_type)
                    == old(self).component_values(component_type),
            },
            forall|t: usize|
                t != component_type ==>
                    #[trigger] final(self).component_values(t) == old(self).component_values(t),
            forall|t: usize| #[trigger] final(self).component_keys(t)
                == old(self).component_keys(t),
            final(self).entities() == old(self).entities(),
            forall|e: usize| final(self).signature(e) == old(self).signature(e),
            final(self).type_keys() == old(self).type_keys(),
            final(self).pending() == old(self).pending(),
            final(self).free_ids() == old(self).free_ids(),
            final(self).next_id() == old(self).next_id(),
            final(self).archtypes() == old(self).archtypes(),
    {
        if component_type < self.storage.len() {
            proof {
                assert(self.storage@[component_type as int].wf());
            }
            self.storage[component_type].get_mut(entity.0)
        } else {
            proof {
                assert(!Seq::<usize>::empty().contains(entity.0));
            }
            None
        }
    }

    /// Every component of type `component_type` with its entity, in packing
    /// order. Empty for a type that is not registered.
    pub fn iter(&self, component_type: ComponentTypeUUID) -> (r: Vec<(EntityUUID, &C)>)
        requires
            self.wf(),
        ensures
            r@.len() == self.component_keys(component_type).len(),
            forall|i: int|
                0 <= i < r@.len() ==> (#[trigger] r@[i]).0.0 == self.component_keys(
                    component_type,
                )[i] && *r@[i].1 == self.component_values(component_type)[i],
    {
        let mut r: Vec<(EntityUUID, &C)> = Vec::new();
        if component_type < self.storage.len() {
            proof {
                assert(self.storage@[component_type as int].wf());
            }
            let set = &self.storage[component_type];
            let mut slot: usize = 0;
            while slot < set.len()
                invariant
                    set.wf(),
                    slot <= set.keys().len(),
                    set.keys().len() == set.values().len(),
                    r@.len() == slot,
                    forall|i: int|
                        0 <= i < r@.len() ==> (#[trigger] r@[i]).0.0 == set.keys()[i] && *r@[i].1
                            == set.values()[i],
                decreases set.keys().len() - slot,
            {
                r.push((EntityUUID(set.key_at(slot)), set.value_at(slot)));
                slot = slot + 1;
            }
        }
        r
    }

    /// Number of components of type `component_type`.
    pub fn component_count(&self, component_type: ComponentTypeUUID) -> (n: usize)
        requires
            self.wf(),
        ensures
            n == self.component_keys(component_type).len(),
            n == self.component_values(component_type).len(),
            n == self.components(component_type).dom().len(),
    {
        if component_type < self.storage.len() {
            proof {
                assert(self.storage@[component_type as int].wf());
                self.storage@[component_type as int].lemma_view_len();
            }
            self.storage[component_type].len()
        } else {
            proof {
                assert(self.components(component_type).dom() =~= Set::<usize>::empty()) by {
                    assert forall|e: usize| !Seq::<usize>::empty().contains(e) by {}
                }
            }
            0
        }
    }

    /// The dense slot of the component of type `component_type` of an
    /// entity, if it has one.
    pub fn slot_of(&self, entity: EntityUUID, component_type: ComponentTypeUUID) -> (r: Option<
        usize,
    >)
        requires
            self.wf(),
        ensures
            r is Some <==> self.components(component_type).contains_key(entity.0),
            r matches Some(slot) ==> slot < self.component_keys(component_type).len()
                && self.component_keys(component_type)[slot as int] == entity.0
                && self.component_values(component_type)[slot as int] == self.components(
                component_type,
            )[entity.0],
    {
        if component_type < self.storage.len() {
            proof {
                assert(self.storage@[component_type as int].wf());
            }
            self.storage[component_type].slot_of(entity.0)
        } else {
            proof {
                assert(!Seq::<usize>::empty().contains(entity.0));
            }
            None
        }
    }

    /// The entity whose component sits in a dense slot.
    pub fn entity_at(&self, component_type: ComponentTypeUUID, slot: usize) -> (entity:
        EntityUUID)
        requires
            self.wf(),
            slot < self.component_keys(component_type).len(),
        ensures
            entity.0 == self.component_keys(component_type)[slot as int],
    {
        proof {
            assert(self.storage@[component_type as int].wf());
        }
        EntityUUID(self.storage[component_type].key_at(slot))
    }

    /// The component in a dense slot.
    pub fn component_at(&self, component_type: ComponentTypeUUID, slot: usize) -> (value: &C)
        requires
            self.wf(),
            slot < self.component_values(component_type).len(),
        ensures
            *value == self.component_values(component_type)[slot as int],
    {
        proof {
            assert(self.storage@[component_type as int].wf());
        }
        self.storage[component_type].value_at(slot)
    }

    /// Mutable access to the component in a dense slot. Writing through the
    /// reference changes that component and nothing else.
    pub fn component_at_mut(&mut self, component_type: ComponentTypeUUID, slot: usize) -> (value:
        &mut C)
        requires
            old(self).wf(),
            slot < old(self).component_values(component_type).len(),
        ensures
            *value == old(self).component_values(component_type)[slot as int],
            final(self).wf(),
            final(self).component_values(component_type) == old(self).component_values(
                component_type,
            ).update(slot as int, *final(value)),
            forall|t: usize|
                t != component_type ==>
                    #[trigger] final(self).component_values(t) == old(self).component_values(t),
            forall|t: usize| #[trigger] final(self).component_keys(t)
                == old(self).component_keys(t),
            final(self).entities() == old(self).entities(),
            forall|e: usize| final(self).signature(e) == old(self).signature(e),
            final(self).type_keys() == old(self).type_keys(),
            final(self).pending() == old(self).pending(),
            final(self).free_ids() == old(self).free_ids(),
            final(self).next_id() == old(self).next_id(),
            final(self).archtypes() == old(self).archtypes(),
    {
        proof {
            assert(self.storage@[component_type as int].wf());
            self.storage@[component_type as int].lemma_view_len();
        }
        self.storage[component_type].value_at_mut(slot)
    }

    /// The bit set of a combination of component types: the union of the bit
    /// sets of the listed types that are registered.
    pub fn get_archtype_bitset(&self, types: &Vec<ComponentTypeUUID>) -> (r: BitSet)
        requires
            self.wf(),
        ensures
            r@ == archtype_words(types@, self.type_count()),
            forall|index: int| #[trigger]
                r.has(index) <==> 0 <= index < self.type_count() && exists|i: int|
                    0 <= i < types@.len() && #[trigger] types@[i] == index,
    {
        let mut r = BitSet::new();
        let mut i: usize = 0;
        proof {
            assert(types@.subrange(0, 0) =~= Seq::<usize>::empty());
        }
        while i < types.len()
            invariant
                self.wf(),
                i <= types@.len(),
                r@ == archtype_words(types@.subrange(0, i as int), self.type_count()),
            decreases types@.len() - i,
        {
            proof {
                assert(types@.subrange(0, i + 1).drop_last() =~= types@.subrange(0, i as int));
            }
            match self.get_component_bitset(types[i]) {
                Some(bits) => {
                    let _ = r.union(bits);
                },
                None => {},
            }
            i = i + 1;
        }
        proof {
            assert(types@.subrange(0, i as int) =~= types@);
            assert forall|index: int| #[trigger]
                r.has(index) <==> 0 <= index < self.type_count() && exists|i: int|
                    0 <= i < types@.len() && #[trigger] types@[i] == index by {
                lemma_archtype_bits(types@, self.type_count(), index);
            }
        }
        r
    }

    /// The bit set that is stored under a signature. Where none is stored,
    /// `default` makes one, which is stored under the signature and
    /// returned. Nothing else changes.
    pub fn archtype_bitset_get_or_insert_with<F: FnOnce() -> BitSet>(
        &mut self,
        key: ArchTypeUUID,
        default: F,
    ) -> (r: &BitSet)
        requires
            old(self).wf(),
            default.requires(()),
        ensures
            final(self).wf(),
            old(self).archtypes().contains_key(key) ==>
                r@ == old(self).archtypes()[key] && final(self).archtypes()
                    == old(self).archtypes(),
            !old(self).archtypes().contains_key(key) ==>
                default.ensures((), *r) && final(self).archtypes()
                    == old(self).archtypes().insert(key, r@),
            final(self).type_keys() == old(self).type_keys(),
            final(self).entities() == old(self).entities(),
            forall|e: usize| final(self).signature(e) == old(self).signature(e),
            forall|t: usize|
                final(self).component_keys(t) == old(self).component_keys(t)
                    && final(self).component_values(t) == old(self).component_values(t),
            final(self).pending() == old(self).pending(),
            final(self).free_ids() == old(self).free_ids(),
            final(self).next_id() == old(self).next_id(),
    {
        let mut i: usize = 0;
        while i < self.archtype_keys.len()
            invariant
                *self == *old(self),
                self.wf(),
                i <= self.archtype_keys@.len(),
                forall|j: int| 0 <= j < i ==> self.archtype_keys@[j] != key,
            decreases self.archtype_keys@.len() - i,
        {
            if self.archtype_keys[i] == key {
                proof {
                    assert(self.archtype_keys@.contains(key));
                    assert(self.archtype_keys@.index_of(key) == i);
                }
                return &self.archtype_bitsets[i];
            }
            i = i + 1;
        }
        let bits: BitSet = default();
        proof {
            lemma_signature_push(self.archtype_keys@, self.archtype_bitsets@, key, bits);
        }
        self.archtype_keys.push(key);
        self.archtype_bitsets.push(bits);
        let last: usize = self.archtype_bitsets.len() - 1;
        &self.archtype_bitsets[last]
    }

    /// Every component of type `component_type` with its entity, in packing
    /// order, each for writing. Writing through a reference changes that
    /// component and nothing else. Empty for a type that is not registered.
    pub fn iter_mut<'a>(&'a mut self, component_type: ComponentTypeUUID) -> (r: Vec<
        (EntityUUID, &'a mut C),
    >)
        requires
            old(self).wf(),
        ensures
            r@.len() == old(self).component_keys(component_type).len(),
            forall|i: int|
                0 <= i < r@.len() ==> (#[trigger] r@[i]).0.0 == old(self).component_keys(
                    component_type,
                )[i] && *r@[i].1 == old(self).component_values(component_type)[i],
            final(self).wf(),
            final(self).component_values(component_type).len() == old(self).component_values(
                component_type,
            ).len(),
            forall|i: int|
                0 <= i < r@.len() ==>
                    final(self).component_values(component_type)[i] == *final((#[trigger] r@[i]).1),
            forall|t: usize|
                t != component_type ==>
                    #[trigger] final(self).component_values(t) == old(self).component_values(t),
            forall|t: usize| #[trigger] final(self).component_keys(t)
                == old(self).component_keys(t),
            final(self).entities() == old(self).entities(),
            forall|e: usize| final(self).signature(e) == old(self).signature(e),
            final(self).type_keys() == old(self).type_keys(),
            final(self).pending() == old(self).pending(),
            final(self).free_ids() == old(self).free_ids(),
            final(self).next_id() == old(self).next_id(),
            final(self).archtypes() == old(self).archtypes(),
    {
        let mut r: Vec<(EntityUUID, &mut C)> = Vec::new();
        if component_type < self.storage.len() {
            proof {
                assert(self.storage@[component_type as int].wf());
            }
            let pairs = self.storage[component_type].iter_mut();
            let ghost all = pairs@;
            let count: usize = pairs.len();
            let mut i: usize = 0;
            for pair in it: pairs
                invariant
                    i == it.index(),
                    it.seq() == all,
                    all.len() == count,
                    r@.len() == i,
                    forall|j: int|
                        0 <= j < r@.len() ==> (#[trigger] r@[j]).0.0 == all[j].0 && *r@[j].1
                            == *all[j].1 && *final(r@[j].1) == *final(all[j].1),
            {
                assert(i < all.len());
                assert(pair == all[i as int]);
                r.push((EntityUUID(pair.0), pair.1));
                i = i + 1;
            }
        }
        r
    }

    /// The bit set of a live entity: one flag for each component type that
    /// it carries.
    pub fn entity_bitset(&self, entity: EntityUUID) -> (r: Option<&BitSet>)
        requires
            self.wf(),
        ensures
            r is Some <==> self.has(entity),
            r matches Some(bits) ==> bits@ == self.signature(entity.0),
    {
        self.entity_components.get(entity.0)
    }

    /// The bit set of a registered component type: the flag of that type and
    /// no other.
    pub fn get_component_bitset(&self, component_type: ComponentTypeUUID) -> (r: Option<&BitSet>)
        requires
            self.wf(),
        ensures
            r is Some <==> component_type < self.type_count(),
            r matches Some(bits) ==> bits@ == with_flag(
                Seq::<usize>::empty(),
                component_type as int,
                true,
            ),
    {
        if component_type < self.component_bitsets.len() {
            Some(&self.component_bitsets[component_type])
        } else {
            None
        }
    }
}

/// What removing the entity `id` makes of one sparse set.
spec fn removed_from<C>(before: SparseSet<C, 1000>, after: SparseSet<C, 1000>, id: usize) -> bool {
    &&& after.wf()
    &&& after@ == before@.remove(id)
    &&& before@.contains_key(id) ==> after.keys() == swap_removed(
        before.keys(),
        before.keys().index_of(id),
    ) && after.values() == swap_removed(before.values(), before.keys().index_of(id))
    &&& !before@.contains_key(id) ==> after.keys() == before.keys() && after.values()
        == before.values()
}

/// The component of type `t` that the sparse sets hold for entity `e`.
spec fn stored_value<C>(storage: Seq<SparseSet<C, 1000>>, t: usize, e: usize) -> Option<C> {
    if t < storage.len() && storage[t as int]@.contains_key(e) {
        Some(storage[t as int]@[e])
    } else {
        None
    }
}

/// The requests that are left say about the pair `k` what all the requests
/// said about it.
spec fn still_pending<C>(
    left: Seq<PendingChange<C>>,
    all: Seq<PendingChange<C>>,
    k: (usize, usize),
) -> bool {
    pending_map(left).contains_key(k) == pending_map(all).contains_key(k) && (pending_map(
        left,
    ).contains_key(k) ==> pending_map(left)[k] == pending_map(all)[k])
}

/// The storage together with the systems that work on it.
#[verifier::reject_recursive_types(C)]
pub struct ECS<C> {
    pub storage: ECSStorage<C>,
    pub systems: Vec<Box<dyn System<C>>>,
}

impl<C> ECS<C> {
    /// An empty storage and no system.
    pub fn new() -> (r: Self)
        ensures
            r.storage.wf(),
            r.storage.type_keys() == Seq::<ArchTypeUUID>::empty(),
            r.storage.entities() == Set::<usize>::empty(),
            r.storage.pending() == Map::<(usize, usize), Option<C>>::empty(),
            r.storage.free_ids() == Seq::<usize>::empty(),
            r.storage.next_id() == 0,
            r.storage.archtypes() == Map::<ArchTypeUUID, Seq<usize>>::empty(),
            forall|t: usize|
                #[trigger] r.storage.component_keys(t) == Seq::<usize>::empty()
                    && r.storage.component_values(t) == Seq::<C>::empty(),
            r.systems@ == Seq::<Box<dyn System<C>>>::empty(),
    {
        Self { storage: ECSStorage::new(), systems: Vec::new() }
    }

    /// Adds a system after the systems that are registered.
    pub fn register_system(&mut self, system: Box<dyn System<C>>)
        ensures
            final(self).systems@ == old(self).systems@.push(system),
            final(self).storage == old(self).storage,
    {
        self.systems.push(system);
    }

    /// Calls the `start` hook of every system once, in the order of
    /// registration, each on the storage as the one before it left it.
    pub fn start(&mut self)
        requires
            old(self).storage.wf(),
        ensures
            final(self).storage.wf(),
            final(self).systems == old(self).systems,
            phase_ran(
                old(self).systems,
                Phase::Start,
                old(self).systems@.len() as int,
                old(self).storage,
                final(self).storage,
            ),
    {
        let ghost all = self.systems;
        let ghost first = self.storage;
        let mut i: usize = 0;
        while i < self.systems.len()
            invariant
                self.storage.wf(),
                self.systems == old(self).systems,
                all == old(self).systems,
                first == old(self).storage,
                i <= all@.len(),
                phase_ran(all, Phase::Start, i as int, first, self.storage),
            decreases self.systems@.len() - i,
        {
            let ghost mid = self.storage;
            self.systems[i].start(&mut self.storage);
            proof {
                assert(phase_ran(all, Phase::Start, i + 1 - 1, first, mid));
                assert(hook_effect(all, i + 1 - 1, Phase::Start, mid, self.storage));
                assert(phase_ran(all, Phase::Start, i + 1, first, self.storage));
            }
            i = i + 1;
        }
    }

    /// Calls the `update` hook of every system once, in the order of
    /// registration, each on the storage as the one before it left it.
    pub fn update(&mut self)
        requires
            old(self).storage.wf(),
        ensures
            final(self).storage.wf(),
            final(self).systems == old(self).systems,
            phase_ran(
                old(self).systems,
                Phase::Update,
                old(self).systems@.len() as int,
                old(self).storage,
                final(self).storage,
            ),
    {
        let ghost all = self.systems;
        let ghost first = self.storage;
        let mut i: usize = 0;
        while i < self.systems.len()
            invariant
                self.storage.wf(),
                self.systems == old(self).systems,
                all == old(self).systems,
                first == old(self).storage,
                i <= all@.len(),
                phase_ran(all, Phase::Update, i as int, first, self.storage),
            decreases self.systems@.len() - i,
        {
            let ghost mid = self.storage;
            self.systems[i].update(&mut self.storage);
            proof {
                assert(phase_ran(all, Phase::Update, i + 1 - 1, first, mid));
                assert(hook_effect(all, i + 1 - 1, Phase::Update, mid, self.storage));
                assert(phase_ran(all, Phase::Update, i + 1, first, self.storage));
            }
            i = i + 1;
        }
    }

    /// Calls the `fixed_update` hook of every system once, in the order of
    /// registration, each on the storage as the one before it left it.
    pub fn fixed_update(&mut self)
        requires
            old(self).storage.wf(),
        ensures
            final(self).storage.wf(),
            final(self).systems == old(self).systems,
            phase_ran(
                old(self).systems,
                Phase::FixedUpdate,
                old(self).systems@.len() as int,
                old(self).storage,
                final(self).storage,
            ),
    {
        let ghost all = self.systems;
        let ghost first = self.storage;
        let mut i: usize = 0;
        while i < self.systems.len()
            invariant
                self.storage.wf(),
                self.systems == old(self).systems,
                all == old(self).systems,
                first == old(self).storage,
                i <= all@.len(),
                phase_ran(all, Phase::FixedUpdate, i as int, first, self.storage),
            decreases self.systems@.len() - i,
        {
            let ghost mid = self.storage;
            self.systems[i].fixed_update(&mut self.storage);
            proof {
                assert(phase_ran(all, Phase::FixedUpdate, i + 1 - 1, first, mid));
                assert(hook_effect(all, i + 1 - 1, Phase::FixedUpdate, mid, self.storage));
                assert(phase_ran(all, Phase::FixedUpdate, i + 1, first, self.storage));
            }
            i = i + 1;
        }
    }

    /// Calls the `render` hook of every system once, in the order of
    /// registration, each on the storage as the one before it left it.
    pub fn render(&mut self)
        requires
            old(self).storage.wf(),
        ensures
            final(self).storage.wf(),
            final(self).systems == old(self).systems,
            phase_ran(
                old(self).systems,
                Phase::Render,
                old(self).systems@.len() as int,
                old(self).storage,
                final(self).storage,
            ),
    {
        let ghost all = self.systems;
        let ghost first = self.storage;
        let mut i: usize = 0;
        while i < self.systems.len()
            invariant
                self.storage.wf(),
                self.systems == old(self).systems,
                all == old(self).systems,
                first == old(self).storage,
                i <= all@.len(),
                phase_ran(all, Phase::Render, i as int, first, self.storage),
            decreases self.systems@.len() - i,
        {
            let ghost mid = self.storage;
            self.systems[i].render(&mut self.storage);
            proof {
                assert(phase_ran(all, Phase::Render, i + 1 - 1, first, mid));
                assert(hook_effect(all, i + 1 - 1, Phase::Render, mid, self.storage));
                assert(phase_ran(all, Phase::Render, i + 1, first, self.storage));
            }
            i = i + 1;
        }
    }

}

} // verus!
