//! The entity store: dense endpoint arrays, a freelist of recycled ids, and reverse
//! indexes from each entity to the live entities that use it as an endpoint.
use vstd::prelude::*;
use std::collections::HashMap;
use std::collections::hash_map::DefaultHasher;
use std::hash::Hasher;
use multimap::MultiMap;
use vstd::std_specs::hash::DefaultHasherAdditionalSpecFns;
use vstd::utf8::encode_utf8;
use crate::lists::{id_lists, list_at, lists_new, lists_insert, lists_get, lists_remove, lists_insert_many};
use crate::sorted::{strictly_sorted, insert_sorted, remove_sorted, merge_sorted, copy_ids, append_ids, lemma_bounded_len};

verus! {

broadcast use vstd::std_specs::hash::group_hash_axioms;

pub type EntityId = usize;

pub type DatatypeId = u64;

/// The reserved id that stands for "no entity".
pub const NIL: EntityId = usize::MAX;

/// Slots reserved when a store is created.
pub const INITIAL_CAPACITY: usize = 1024;

/// The scalar type of a datatype's field.
#[derive(Debug, Clone, Copy, PartialOrd, PartialEq)]
pub enum Datatype {
    Entity,
    Int,
    Float,
    Bool,
    String,
}

/// A named field of a datatype.
#[derive(Debug, Clone, PartialOrd, PartialEq)]
pub struct DataField {
    pub name: String,
    pub datatype: Datatype,
}

/// The id of the datatype named `name`: a stable hash of its UTF-8 bytes.
pub open spec fn datatype_id_of(name: Seq<char>) -> DatatypeId {
    DefaultHasher::spec_finish(seq![encode_utf8(name)])
}

fn type_id(name: &str) -> (r: DatatypeId)
    ensures
        r == datatype_id_of(name@),
{
    let mut hasher = DefaultHasher::new();
    hasher.write(name.as_bytes());
    hasher.finish()
}

fn copy_bytes(b: &[u8]) -> (r: Vec<u8>)
    ensures
        r@ == b@,
{
    let mut r: Vec<u8> = Vec::new();
    let mut i: usize = 0;
    while i < b.len()
        invariant
            i <= b@.len(),
            r@ == b@.subrange(0, i as int),
        decreases b@.len() - i,
    {
        r.push(b[i]);
        i = i + 1;
        assert(r@ =~= b@.subrange(0, i as int));
    }
    assert(b@.subrange(0, i as int) =~= b@);
    r
}

pub struct Weave {
    available: usize,
    freelist: Vec<EntityId>,
    identities: Vec<EntityId>,
    sources: Vec<EntityId>,
    targets: Vec<EntityId>,
    source_ids: Vec<Vec<EntityId>>,
    target_ids: Vec<Vec<EntityId>>,
    type_names: HashMap<DatatypeId, String>,
    types: HashMap<DatatypeId, Vec<DataField>>,
    archetypes: MultiMap<EntityId, DatatypeId>,
    data: HashMap<DatatypeId, HashMap<EntityId, Vec<u8>>>,
}

impl Weave {
    pub const NIL: EntityId = usize::MAX;

    /// Number of slots in the dense arrays.
    pub closed spec fn cap(&self) -> nat {
        self.identities@.len()
    }

    /// `id` names a live entity.
    pub closed spec fn is_live(&self, id: int) -> bool {
        0 <= id < self.identities@.len() && self.identities@[id] == id
    }

    /// Source endpoint of `id` (meaningful when `id` is live).
    pub closed spec fn src_of(&self, id: int) -> EntityId {
        self.sources@[id]
    }

    /// Target endpoint of `id` (meaningful when `id` is live).
    pub closed spec fn tgt_of(&self, id: int) -> EntityId {
        self.targets@[id]
    }

    /// The recyclable ids, the next one to be reused last.
    pub closed spec fn free_ids(&self) -> Seq<EntityId> {
        self.freelist@
    }

    /// The first slot that no entity has used yet; every slot from it on is unused.
    pub closed spec fn watermark(&self) -> nat {
        (self.identities@.len() - self.available) as nat
    }

    /// The id that the next allocation hands out: the last freed id, else the first slot
    /// never used.
    pub open spec fn next_id_spec(&self) -> EntityId {
        if self.free_ids().len() > 0 {
            self.free_ids().last()
        } else {
            self.watermark() as EntityId
        }
    }

    /// How many more entities can be created before the id space is used up.
    pub closed spec fn room(&self) -> nat {
        (self.freelist@.len() + self.available + (usize::MAX - 1 - self.identities@.len())) as nat
    }

    /// The payload attached to `e` under datatype `dt`, if any.
    pub closed spec fn component(&self, dt: DatatypeId, e: EntityId) -> Option<Seq<u8>> {
        if self.data@.contains_key(dt) && self.data@[dt]@.contains_key(e) {
            Some(self.data@[dt]@[e]@)
        } else {
            None
        }
    }

    /// The datatypes `e` carries a component of, in the order they were attached.
    pub closed spec fn archetype(&self, e: EntityId) -> Seq<DatatypeId> {
        list_at(self.archetypes, e)
    }

    /// `dt` was defined.
    pub closed spec fn has_datatype(&self, dt: DatatypeId) -> bool {
        self.types@.contains_key(dt)
    }

    /// The fields of the defined datatype `dt`, as names and scalar types.
    pub closed spec fn fields_of(&self, dt: DatatypeId) -> Seq<(Seq<char>, Datatype)> {
        self.types@[dt]@.map_values(|f: DataField| (f.name@, f.datatype))
    }

    /// The name recorded for the defined datatype `dt`.
    pub closed spec fn name_of_type(&self, dt: DatatypeId) -> Option<Seq<char>> {
        if self.type_names@.contains_key(dt) { Some(self.type_names@[dt]@) } else { None }
    }

    /// Datatypes and components are as in `old`.
    pub closed spec fn same_components(&self, old: &Weave) -> bool {
        &&& self.type_names == old.type_names
        &&& self.types == old.types
        &&& self.archetypes == old.archetypes
        &&& self.data == old.data
    }

    /// Each archetype lists, without repetition, exactly the datatypes the entity has a
    /// component of.
    pub closed spec fn inv_components(&self) -> bool {
        forall|e: EntityId| #[trigger] self.archetype(e).no_duplicates()
            && forall|dt: DatatypeId| self.archetype(e).contains(dt) <==> (#[trigger] self.component(dt, e)) is Some
    }

    /// Between `old` and `self` only allocations happened as far as the id space goes: the
    /// watermark did not go down, it went up at most as far as room went down, and the
    /// slots grew at most to twice the watermark.
    pub open spec fn allocated_from(&self, old: &Weave) -> bool {
        &&& self.watermark() >= old.watermark()
        &&& self.watermark() + self.room() <= old.watermark() + old.room()
        &&& (self.cap() <= old.cap() || self.cap() <= 2 * self.watermark())
    }

    pub proof fn lemma_allocated_trans(a: &Weave, b: &Weave, c: &Weave)
        requires
            b.allocated_from(a),
            c.allocated_from(b),
        ensures
            c.allocated_from(a),
    {
    }

    pub proof fn lemma_allocated_refl(&self)
        ensures
            self.allocated_from(self),
    {
    }

    /// The live entities whose source is `e`.
    pub open spec fn source_set(&self, e: int) -> Set<EntityId> {
        Set::new(|x: EntityId| self.is_live(x as int) && self.src_of(x as int) == e)
    }

    /// The live entities whose target is `e`.
    pub open spec fn target_set(&self, e: int) -> Set<EntityId> {
        Set::new(|x: EntityId| self.is_live(x as int) && self.tgt_of(x as int) == e)
    }

    /// The live entities that use `e` as source or as target.
    pub open spec fn dependent_set(&self, e: int) -> Set<EntityId> {
        self.source_set(e).union(self.target_set(e))
    }

    pub open spec fn is_knot_spec(&self, id: int) -> bool {
        self.src_of(id) == id && self.tgt_of(id) == id
    }

    pub open spec fn is_arrow_spec(&self, id: int) -> bool {
        self.src_of(id) != id && self.tgt_of(id) != id
    }

    pub open spec fn is_mark_spec(&self, id: int) -> bool {
        self.src_of(id) == id && self.tgt_of(id) != id
    }

    pub open spec fn is_tether_spec(&self, id: int) -> bool {
        self.src_of(id) != id && self.tgt_of(id) == id
    }

    /// Knots and arrows.
    pub open spec fn is_primary_spec(&self, id: int) -> bool {
        self.is_knot_spec(id) || self.is_arrow_spec(id)
    }

    /// The representation invariant, with endpoints of live entities in range but not
    /// necessarily live.
    pub closed spec fn inv_store(&self) -> bool {
        let n = self.identities@.len();
        &&& 1 <= n < usize::MAX
        &&& self.sources@.len() == n
        &&& self.targets@.len() == n
        &&& self.source_ids@.len() == n
        &&& self.target_ids@.len() == n
        &&& self.available <= n
        &&& forall|i: int| 0 <= i < n ==> #[trigger] self.identities@[i] == i || self.identities@[i] == NIL
        &&& forall|i: int| n - self.available <= i < n ==> #[trigger] self.identities@[i] == NIL
        &&& self.freelist@.no_duplicates()
        &&& forall|k: int| 0 <= k < self.freelist@.len() ==>
            #[trigger] self.freelist@[k] < n - self.available
            && self.identities@[self.freelist@[k] as int] == NIL
        &&& forall|i: int| #[trigger] self.is_live(i) ==>
            self.sources@[i] < n && self.targets@[i] < n
        &&& forall|e: int| 0 <= e < n ==> strictly_sorted(#[trigger] self.source_ids@[e]@)
        &&& forall|e: int| 0 <= e < n ==> strictly_sorted(#[trigger] self.target_ids@[e]@)
        &&& forall|e: int, x: EntityId| 0 <= e < n ==>
            (#[trigger] self.source_ids@[e]@.contains(x) <==> (self.is_live(x as int) && self.sources@[x as int] == e))
        &&& forall|e: int, x: EntityId| 0 <= e < n ==>
            (#[trigger] self.target_ids@[e]@.contains(x) <==> (self.is_live(x as int) && self.targets@[x as int] == e))
    }

    /// Well-formed store: the representation invariant, and every live entity's endpoints
    /// are live.
    pub open spec fn wf(&self) -> bool {
        &&& self.inv_store()
        &&& self.inv_components()
        &&& self.basic_facts()
        &&& self.ends_live()
    }

    /// Every live entity's endpoints are live.
    pub open spec fn ends_live(&self) -> bool {
        forall|i: int| #![trigger self.src_of(i)] #![trigger self.tgt_of(i)]
            self.is_live(i) ==> self.is_live(self.src_of(i) as int) && self.is_live(self.tgt_of(i) as int)
    }

    pub proof fn lemma_same_components_refl(&self)
        ensures
            self.same_components(self),
    {
    }

    pub proof fn lemma_same_components_trans(a: &Weave, b: &Weave, c: &Weave)
        requires
            b.same_components(a),
            c.same_components(b),
        ensures
            c.same_components(a),
    {
    }

    pub proof fn lemma_component_of_same(a: &Weave, b: &Weave)
        requires
            b.same_components(a),
        ensures
            forall|d: DatatypeId, e: EntityId| #[trigger] b.component(d, e) == a.component(d, e),
            forall|e: EntityId| #[trigger] b.archetype(e) == a.archetype(e),
            forall|d: DatatypeId| #[trigger] b.has_datatype(d) == a.has_datatype(d),
            forall|d: DatatypeId| #[trigger] b.name_of_type(d) == a.name_of_type(d),
    {
    }

    proof fn lemma_components_kept(pre: Weave, post: Weave)
        requires
            pre.inv_components(),
            post.same_components(&pre),
        ensures
            post.inv_components(),
    {
        assert forall|e: EntityId| #[trigger] post.archetype(e).no_duplicates()
            && forall|dt: DatatypeId| post.archetype(e).contains(dt) <==> (#[trigger] post.component(dt, e)) is Some by {
            assert(post.archetype(e) == pre.archetype(e));
            assert(pre.archetype(e).no_duplicates());
            assert forall|dt: DatatypeId| post.archetype(e).contains(dt) <==> (#[trigger] post.component(dt, e)) is Some by {
                assert(post.component(dt, e) == pre.component(dt, e));
                assert(pre.archetype(e).contains(dt) <==> pre.component(dt, e) is Some);
            }
        }
    }

    /// What callers may rely on from the representation invariant.
    pub open spec fn basic_facts(&self) -> bool {
        &&& forall|i: int| #[trigger] self.is_live(i) ==> 0 <= i < self.cap()
        &&& self.cap() < usize::MAX
        &&& forall|k: int| 0 <= k < self.free_ids().len() ==> !self.is_live(#[trigger] self.free_ids()[k] as int)
        &&& self.free_ids().no_duplicates()
        &&& !self.is_live(self.next_id_spec() as int)
        &&& forall|i: int| self.watermark() <= i ==> !#[trigger] self.is_live(i)
        &&& self.watermark() < usize::MAX
        &&& self.watermark() <= self.cap()
    }

    pub proof fn lemma_basic_facts(&self)
        requires
            self.inv_store(),
        ensures
            self.basic_facts(),
    {
    }

    /// At `i`, both stores agree on liveness and, where live, on endpoints.
    pub open spec fn agrees_at(&self, old: &Weave, i: int) -> bool {
        &&& self.is_live(i) == old.is_live(i)
        &&& old.is_live(i) ==> self.src_of(i) == old.src_of(i) && self.tgt_of(i) == old.tgt_of(i)
    }

    /// If `i` is live here, it was live in `old`, with the same endpoints.
    pub open spec fn kept_at(&self, old: &Weave, i: int) -> bool {
        self.is_live(i) ==> old.is_live(i) && self.src_of(i) == old.src_of(i) && self.tgt_of(i) == old.tgt_of(i)
    }

    /// Only deletions happened since `old`: no entity was born, no endpoint moved.
    pub open spec fn only_removed(&self, old: &Weave) -> bool {
        forall|i: int| #[trigger] self.kept_at(old, i)
    }

    /// Outside `id`, the same entities are live, with the same endpoints.
    pub open spec fn agrees_except(&self, old: &Weave, id: int) -> bool {
        forall|i: int| i != id ==> #[trigger] self.agrees_at(old, i)
    }

    /// The same entities are live, with the same endpoints.
    pub open spec fn same_graph(&self, old: &Weave) -> bool {
        forall|i: int| #[trigger] self.agrees_at(old, i)
    }

    /// The freelist after the next allocation.
    pub open spec fn free_after_alloc(&self) -> Seq<EntityId> {
        if self.free_ids().len() > 0 {
            self.free_ids().drop_last()
        } else {
            self.free_ids()
        }
    }

    /// A store with no entity, and its initial capacity reserved.
    fn new_store() -> (wv: Weave)
        ensures
            wv.wf(),
            forall|dt: DatatypeId, e: EntityId| wv.component(dt, e) is None,
            forall|dt: DatatypeId| !wv.has_datatype(dt),
            forall|i: int| !wv.is_live(i),
            wv.free_ids() == Seq::<EntityId>::empty(),
            wv.next_id_spec() == 0,
            wv.watermark() == 0,
            wv.room() == usize::MAX - 1,
    {
        let mut identities: Vec<EntityId> = Vec::new();
        let mut sources: Vec<EntityId> = Vec::new();
        let mut targets: Vec<EntityId> = Vec::new();
        let mut source_ids: Vec<Vec<EntityId>> = Vec::new();
        let mut target_ids: Vec<Vec<EntityId>> = Vec::new();
        let mut i: usize = 0;
        while i < INITIAL_CAPACITY
            invariant
                i <= INITIAL_CAPACITY,
                identities@.len() == i,
                sources@.len() == i,
                targets@.len() == i,
                source_ids@.len() == i,
                target_ids@.len() == i,
                forall|k: int| 0 <= k < i ==> #[trigger] identities@[k] == NIL,
                forall|k: int| 0 <= k < i ==> (#[trigger] source_ids@[k])@.len() == 0,
                forall|k: int| 0 <= k < i ==> (#[trigger] target_ids@[k])@.len() == 0,
            decreases INITIAL_CAPACITY - i,
        {
            identities.push(NIL);
            sources.push(NIL);
            targets.push(NIL);
            source_ids.push(Vec::new());
            target_ids.push(Vec::new());
            i = i + 1;
        }
        let wv = Weave {
            available: INITIAL_CAPACITY,
            freelist: Vec::new(),
            identities,
            sources,
            targets,
            source_ids,
            target_ids,
            type_names: HashMap::new(),
            types: HashMap::new(),
            archetypes: lists_new(),
            data: HashMap::new(),
        };
        proof {
            assert forall|e: EntityId| #[trigger] wv.archetype(e).no_duplicates()
                && forall|dt: DatatypeId| wv.archetype(e).contains(dt) <==> (#[trigger] wv.component(dt, e)) is Some by {
                assert(!id_lists(wv.archetypes).dom().contains(e));
                assert(wv.archetype(e) =~= Seq::<DatatypeId>::empty());
            }
            assert forall|e: int, x: EntityId| 0 <= e < wv.identities@.len() implies
                (#[trigger] wv.source_ids@[e]@.contains(x) <==> (wv.is_live(x as int) && wv.sources@[x as int] == e)) by {
                if wv.source_ids@[e]@.contains(x) {
                    assert(wv.source_ids@[e]@[wv.source_ids@[e]@.index_of(x)] == x);
                }
            }
            assert forall|e: int, x: EntityId| 0 <= e < wv.identities@.len() implies
                (#[trigger] wv.target_ids@[e]@.contains(x) <==> (wv.is_live(x as int) && wv.targets@[x as int] == e)) by {
                if wv.target_ids@[e]@.contains(x) {
                    assert(wv.target_ids@[e]@[wv.target_ids@[e]@.index_of(x)] == x);
                }
            }
        }
        wv
    }

    /// Doubles the dense arrays (up to the end of the id space); new slots are unused.
    fn grow(&mut self)
        requires
            old(self).inv_store(),
            old(self).available == 0,
            old(self).freelist@.len() == 0,
            old(self).room() >= 1,
        ensures
            final(self).same_components(old(self)),
            final(self).inv_store(),
            final(self).available > 0,
            final(self).cap() > old(self).cap(),
            final(self).freelist@ == old(self).freelist@,
            final(self).room() == old(self).room(),
            final(self).next_id_spec() == old(self).next_id_spec(),
            final(self).watermark() == old(self).watermark(),
            final(self).cap() <= 2 * old(self).cap() + 2,
            final(self).same_graph(old(self)),
    {
        let n = self.identities.len();
        let target: usize = if n <= (usize::MAX - 1) / 2 { 2 * n } else { usize::MAX - 1 };
        let ghost old_self = *self;
        while self.identities.len() < target
            invariant
                self.same_components(&old_self),
                n <= self.identities@.len() <= target,
                target < usize::MAX,
                self.available == 0,
                self.freelist@ == old_self.freelist@,
                self.sources@.len() == self.identities@.len(),
                self.targets@.len() == self.identities@.len(),
                self.source_ids@.len() == self.identities@.len(),
                self.target_ids@.len() == self.identities@.len(),
                self.identities@.subrange(0, n as int) == old_self.identities@,
                self.sources@.subrange(0, n as int) == old_self.sources@,
                self.targets@.subrange(0, n as int) == old_self.targets@,
                self.source_ids@.subrange(0, n as int) == old_self.source_ids@,
                self.target_ids@.subrange(0, n as int) == old_self.target_ids@,
                forall|k: int| n <= k < self.identities@.len() ==> #[trigger] self.identities@[k] == NIL,
                forall|k: int| n <= k < self.identities@.len() ==> (#[trigger] self.source_ids@[k])@.len() == 0,
                forall|k: int| n <= k < self.identities@.len() ==> (#[trigger] self.target_ids@[k])@.len() == 0,
            decreases target - self.identities@.len(),
        {
            self.identities.push(NIL);
            self.sources.push(NIL);
            self.targets.push(NIL);
            self.source_ids.push(Vec::new());
            self.target_ids.push(Vec::new());
        }
        self.available = target - n;
        proof {
            let m = self.identities@.len() as int;
            assert forall|i: int| 0 <= i < n implies #[trigger] self.identities@[i] == old_self.identities@[i] by {
                assert(self.identities@.subrange(0, n as int)[i] == self.identities@[i]);
            }
            assert forall|i: int| 0 <= i < n implies #[trigger] self.sources@[i] == old_self.sources@[i]
                && self.targets@[i] == old_self.targets@[i]
                && self.source_ids@[i] == old_self.source_ids@[i]
                && self.target_ids@[i] == old_self.target_ids@[i] by {
                assert(self.sources@.subrange(0, n as int)[i] == self.sources@[i]);
                assert(self.targets@.subrange(0, n as int)[i] == self.targets@[i]);
                assert(self.source_ids@.subrange(0, n as int)[i] == self.source_ids@[i]);
                assert(self.target_ids@.subrange(0, n as int)[i] == self.target_ids@[i]);
            }
            assert forall|i: int| #[trigger] self.is_live(i) == old_self.is_live(i) by {
                if 0 <= i < n {
                    assert(self.identities@[i] == old_self.identities@[i]);
                }
            }
            assert forall|e: int, x: EntityId| 0 <= e < m implies
                (#[trigger] self.source_ids@[e]@.contains(x) <==> (self.is_live(x as int) && self.sources@[x as int] == e)) by {
                if e < n {
                    assert(self.source_ids@[e] == old_self.source_ids@[e]);
                    if self.is_live(x as int) {
                        assert(self.sources@[x as int] == old_self.sources@[x as int]);
                    }
                } else {
                    if self.source_ids@[e]@.contains(x) {
                        assert(self.source_ids@[e]@[self.source_ids@[e]@.index_of(x)] == x);
                    }
                    if self.is_live(x as int) {
                        assert(old_self.is_live(x as int));
                        assert(self.sources@[x as int] == old_self.sources@[x as int]);
                    }
                }
            }
            assert forall|e: int, x: EntityId| 0 <= e < m implies
                (#[trigger] self.target_ids@[e]@.contains(x) <==> (self.is_live(x as int) && self.targets@[x as int] == e)) by {
                if e < n {
                    assert(self.target_ids@[e] == old_self.target_ids@[e]);
                    if self.is_live(x as int) {
                        assert(self.targets@[x as int] == old_self.targets@[x as int]);
                    }
                } else {
                    if self.target_ids@[e]@.contains(x) {
                        assert(self.target_ids@[e]@[self.target_ids@[e]@.index_of(x)] == x);
                    }
                    if self.is_live(x as int) {
                        assert(old_self.is_live(x as int));
                        assert(self.targets@[x as int] == old_self.targets@[x as int]);
                    }
                }
            }
            assert forall|e: int| 0 <= e < m implies strictly_sorted(#[trigger] self.source_ids@[e]@) by {
                if e < n {
                    assert(self.source_ids@[e] == old_self.source_ids@[e]);
                }
            }
            assert forall|e: int| 0 <= e < m implies strictly_sorted(#[trigger] self.target_ids@[e]@) by {
                if e < n {
                    assert(self.target_ids@[e] == old_self.target_ids@[e]);
                }
            }
            assert forall|i: int| #[trigger] self.agrees_at(&old_self, i) by {
                if old_self.is_live(i) {
                    assert(self.sources@[i] == old_self.sources@[i]);
                    assert(self.targets@[i] == old_self.targets@[i]);
                }
            }
        }
    }

    /// Hands out the next id: the last recycled one, else the first unused slot.
    fn take_id(&mut self) -> (id: EntityId)
        requires
            old(self).inv_store(),
            old(self).room() >= 1,
        ensures
            final(self).allocated_from(old(self)),
            final(self).watermark() == (if old(self).free_ids().len() > 0 { old(self).watermark() } else { old(self).watermark() + 1 }),
            final(self).same_components(old(self)),
            final(self).inv_store(),
            id == old(self).next_id_spec(),
            id < final(self).cap() - final(self).available,
            final(self).identities@[id as int] == NIL,
            forall|k: int| 0 <= k < final(self).freelist@.len() ==> #[trigger] final(self).freelist@[k] != id,
            final(self).free_ids() == old(self).free_after_alloc(),
            final(self).room() == old(self).room() - 1,
            final(self).same_graph(old(self)),
    {
        if self.freelist.len() > 0 {
            let id = self.freelist.pop().unwrap();
            proof {
                assert forall|k: int| 0 <= k < self.freelist@.len() implies #[trigger] self.freelist@[k] != id by {
                    assert(old(self).freelist@[k] == self.freelist@[k]);
                    assert(old(self).freelist@[old(self).freelist@.len() - 1] == id);
                }
                assert(old(self).freelist@[old(self).freelist@.len() - 1] == id);
                assert(self.freelist@ =~= old(self).freelist@.drop_last());
                assert forall|i: int| #[trigger] self.agrees_at(old(self), i) by {}
                assert forall|i: int| #[trigger] self.is_live(i) implies
                    self.sources@[i] < self.identities@.len() && self.targets@[i] < self.identities@.len() by {
                    assert(old(self).is_live(i));
                }
                assert forall|i: int, j: int| 0 <= i < j < self.freelist@.len() implies
                    self.freelist@[i] != self.freelist@[j] by {
                    assert(old(self).freelist@[i] == self.freelist@[i]);
                    assert(old(self).freelist@[j] == self.freelist@[j]);
                }
            }
            id
        } else {
            let ghost pre = *self;
            if self.available == 0 {
                self.grow();
                assert(pre.watermark() == pre.cap());
            }
            let ghost mid = *self;
            let id = self.identities.len() - self.available;
            self.available = self.available - 1;
            proof {
                assert forall|i: int| #[trigger] self.agrees_at(old(self), i) by {
                    assert(mid.agrees_at(old(self), i));
                }
                assert forall|i: int| #[trigger] self.is_live(i) implies
                    self.sources@[i] < self.identities@.len() && self.targets@[i] < self.identities@.len() by {
                    assert(mid.is_live(i));
                }
            }
            id
        }
    }

    /// Makes the unused slot `id` a live entity with endpoints `s` and `t`.
    fn occupy(&mut self, id: EntityId, s: EntityId, t: EntityId)
        requires
            old(self).inv_store(),
            id < old(self).cap() - old(self).available,
            old(self).identities@[id as int] == NIL,
            forall|k: int| 0 <= k < old(self).freelist@.len() ==> #[trigger] old(self).freelist@[k] != id,
            s < old(self).cap(),
            t < old(self).cap(),
        ensures
            final(self).cap() == old(self).cap(),
            final(self).watermark() == old(self).watermark(),
            final(self).same_components(old(self)),
            final(self).inv_store(),
            final(self).is_live(id as int),
            final(self).src_of(id as int) == s,
            final(self).tgt_of(id as int) == t,
            final(self).agrees_except(old(self), id as int),
            final(self).cap() == old(self).cap(),
            final(self).free_ids() == old(self).free_ids(),
            final(self).room() == old(self).room(),
            final(self).next_id_spec() == old(self).next_id_spec() || old(self).free_ids().len() == 0,
    {
        let ghost pre = *self;
        self.identities[id] = id;
        self.sources[id] = s;
        self.targets[id] = t;
        insert_sorted(&mut self.source_ids[s], id);
        insert_sorted(&mut self.target_ids[t], id);
        proof {
            let n = self.identities@.len() as int;
            assert forall|i: int| i != id implies #[trigger] self.agrees_at(&pre, i) by {
                if 0 <= i < n {
                    assert(self.identities@[i] == pre.identities@[i]);
                }
            }
            assert forall|i: int| #[trigger] self.is_live(i) implies
                self.sources@[i] < n && self.targets@[i] < n by {
                if i != id {
                    assert(self.agrees_at(&pre, i));
                }
            }
            assert forall|e: int, x: EntityId| 0 <= e < n implies
                (#[trigger] self.source_ids@[e]@.contains(x) <==> (self.is_live(x as int) && self.sources@[x as int] == e)) by {
                if e != s {
                    assert(self.source_ids@[e] == pre.source_ids@[e]);
                }
                if x != id && pre.source_ids@[e]@.contains(x) {
                    assert(pre.is_live(x as int));
                }
            }
            assert forall|e: int, x: EntityId| 0 <= e < n implies
                (#[trigger] self.target_ids@[e]@.contains(x) <==> (self.is_live(x as int) && self.targets@[x as int] == e)) by {
                if e != t {
                    assert(self.target_ids@[e] == pre.target_ids@[e]);
                }
                if x != id && pre.target_ids@[e]@.contains(x) {
                    assert(pre.is_live(x as int));
                }
            }
            assert forall|e: int| 0 <= e < n implies strictly_sorted(#[trigger] self.source_ids@[e]@) by {
                if e != s {
                    assert(self.source_ids@[e] == pre.source_ids@[e]);
                }
            }
            assert forall|e: int| 0 <= e < n implies strictly_sorted(#[trigger] self.target_ids@[e]@) by {
                if e != t {
                    assert(self.target_ids@[e] == pre.target_ids@[e]);
                }
            }
            assert forall|k: int| 0 <= k < self.freelist@.len() implies
                #[trigger] self.freelist@[k] < n - self.available
                && self.identities@[self.freelist@[k] as int] == NIL by {
                assert(pre.freelist@[k] != id);
            }
        }
    }

    /// Rewrites the source of the live entity `id`, keeping the reverse index exact.
    fn set_src(&mut self, id: EntityId, src: EntityId)
        requires
            old(self).inv_store(),
            old(self).is_live(id as int),
            src < old(self).cap(),
        ensures
            final(self).cap() == old(self).cap(),
            final(self).watermark() == old(self).watermark(),
            final(self).same_components(old(self)),
            final(self).inv_store(),
            final(self).is_live(id as int),
            final(self).src_of(id as int) == src,
            final(self).tgt_of(id as int) == old(self).tgt_of(id as int),
            final(self).agrees_except(old(self), id as int),
            final(self).cap() == old(self).cap(),
            final(self).free_ids() == old(self).free_ids(),
            final(self).room() == old(self).room(),
            final(self).next_id_spec() == old(self).next_id_spec(),
    {
        let ghost pre = *self;
        let old_src = self.sources[id];
        remove_sorted(&mut self.source_ids[old_src], id);
        self.sources[id] = src;
        insert_sorted(&mut self.source_ids[src], id);
        proof {
            let n = self.identities@.len() as int;
            assert(self.identities@ == pre.identities@);
            assert forall|i: int| i != id implies #[trigger] self.agrees_at(&pre, i) by {}
            assert forall|i: int| #[trigger] self.is_live(i) implies
                self.sources@[i] < n && self.targets@[i] < n by {
                assert(pre.is_live(i));
            }
            assert forall|e: int, x: EntityId| 0 <= e < n implies
                (#[trigger] self.source_ids@[e]@.contains(x) <==> (self.is_live(x as int) && self.sources@[x as int] == e)) by {
                if e != src && e != old_src {
                    assert(self.source_ids@[e] == pre.source_ids@[e]);
                }
            }
            assert forall|e: int, x: EntityId| 0 <= e < n implies
                (#[trigger] self.target_ids@[e]@.contains(x) <==> (self.is_live(x as int) && self.targets@[x as int] == e)) by {
                assert(self.target_ids@[e] == pre.target_ids@[e]);
            }
            assert forall|e: int| 0 <= e < n implies strictly_sorted(#[trigger] self.source_ids@[e]@) by {
                if e != src && e != old_src {
                    assert(self.source_ids@[e] == pre.source_ids@[e]);
                }
            }
            assert forall|e: int| 0 <= e < n implies strictly_sorted(#[trigger] self.target_ids@[e]@) by {
                assert(self.target_ids@[e] == pre.target_ids@[e]);
            }
        }
    }

    /// Rewrites the target of the live entity `id`, keeping the reverse index exact.
    fn set_tgt(&mut self, id: EntityId, tgt: EntityId)
        requires
            old(self).inv_store(),
            old(self).is_live(id as int),
            tgt < old(self).cap(),
        ensures
            final(self).cap() == old(self).cap(),
            final(self).watermark() == old(self).watermark(),
            final(self).same_components(old(self)),
            final(self).inv_store(),
            final(self).is_live(id as int),
            final(self).tgt_of(id as int) == tgt,
            final(self).src_of(id as int) == old(self).src_of(id as int),
            final(self).agrees_except(old(self), id as int),
            final(self).cap() == old(self).cap(),
            final(self).free_ids() == old(self).free_ids(),
            final(self).room() == old(self).room(),
            final(self).next_id_spec() == old(self).next_id_spec(),
    {
        let ghost pre = *self;
        let old_tgt = self.targets[id];
        remove_sorted(&mut self.target_ids[old_tgt], id);
        self.targets[id] = tgt;
        insert_sorted(&mut self.target_ids[tgt], id);
        proof {
            let n = self.identities@.len() as int;
            assert(self.identities@ == pre.identities@);
            assert forall|i: int| i != id implies #[trigger] self.agrees_at(&pre, i) by {}
            assert forall|i: int| #[trigger] self.is_live(i) implies
                self.sources@[i] < n && self.targets@[i] < n by {
                assert(pre.is_live(i));
            }
            assert forall|e: int, x: EntityId| 0 <= e < n implies
                (#[trigger] self.target_ids@[e]@.contains(x) <==> (self.is_live(x as int) && self.targets@[x as int] == e)) by {
                if e != tgt && e != old_tgt {
                    assert(self.target_ids@[e] == pre.target_ids@[e]);
                }
            }
            assert forall|e: int, x: EntityId| 0 <= e < n implies
                (#[trigger] self.source_ids@[e]@.contains(x) <==> (self.is_live(x as int) && self.sources@[x as int] == e)) by {
                assert(self.source_ids@[e] == pre.source_ids@[e]);
            }
            assert forall|e: int| 0 <= e < n implies strictly_sorted(#[trigger] self.target_ids@[e]@) by {
                if e != tgt && e != old_tgt {
                    assert(self.target_ids@[e] == pre.target_ids@[e]);
                }
            }
            assert forall|e: int| 0 <= e < n implies strictly_sorted(#[trigger] self.source_ids@[e]@) by {
                assert(self.source_ids@[e] == pre.source_ids@[e]);
            }
        }
    }

    /// A new entity with endpoints `s` and `t`, each live or the new entity itself.
    fn create(&mut self, s: EntityId, t: EntityId, self_src: bool, self_tgt: bool) -> (id: EntityId)
        requires
            old(self).wf(),
            old(self).room() >= 1,
            self_src || old(self).is_live(s as int),
            self_tgt || old(self).is_live(t as int),
        ensures
            final(self).allocated_from(old(self)),
            final(self).watermark() == (if old(self).free_ids().len() > 0 { old(self).watermark() } else { old(self).watermark() + 1 }),
            final(self).same_components(old(self)),
            final(self).wf(),
            id == old(self).next_id_spec(),
            !old(self).is_live(id as int),
            final(self).is_live(id as int),
            final(self).src_of(id as int) == (if self_src { id } else { s }),
            final(self).tgt_of(id as int) == (if self_tgt { id } else { t }),
            final(self).agrees_except(old(self), id as int),
            final(self).free_ids() == old(self).free_after_alloc(),
            final(self).room() == old(self).room() - 1,
    {
        let ghost pre = *self;
        let id = self.take_id();
        let ghost mid = *self;
        assert(!pre.is_live(id as int));
        assert(mid.agrees_at(&pre, s as int));
        assert(mid.agrees_at(&pre, t as int));
        let s2 = if self_src { id } else { s };
        let t2 = if self_tgt { id } else { t };
        self.occupy(id, s2, t2);
        proof {
            assert forall|i: int| i != id implies #[trigger] self.agrees_at(&pre, i) by {
                assert(self.agrees_at(&mid, i));
                assert(mid.agrees_at(&pre, i));
            }
            assert forall|i: int| #![trigger self.src_of(i)] #![trigger self.tgt_of(i)] self.is_live(i) implies
                self.is_live(self.src_of(i) as int) && self.is_live(self.tgt_of(i) as int) by {
                if i != id {
                    assert(self.agrees_at(&pre, i));
                    assert(pre.is_live(i));
                    let a = pre.src_of(i) as int;
                    let b = pre.tgt_of(i) as int;
                    assert(pre.is_live(a) && pre.is_live(b));
                    assert(a != id && b != id);
                    assert(self.agrees_at(&pre, a));
                    assert(self.agrees_at(&pre, b));
                } else {
                    if !self_src {
                        assert(self.agrees_at(&pre, s as int));
                    }
                    if !self_tgt {
                        assert(self.agrees_at(&pre, t as int));
                    }
                }
            }
            self.lemma_basic_facts();
            Self::lemma_components_kept(pre, *self);
        }
        id
    }

    /// A new knot: an entity that is its own source and target.
    pub fn new_knot(&mut self) -> (id: EntityId)
        requires
            old(self).wf(),
            old(self).room() >= 1,
        ensures
            final(self).allocated_from(old(self)),
            final(self).watermark() == (if old(self).free_ids().len() > 0 { old(self).watermark() } else { old(self).watermark() + 1 }),
            final(self).same_components(old(self)),
            final(self).wf(),
            id == old(self).next_id_spec(),
            !old(self).is_live(id as int),
            final(self).is_live(id as int),
            final(self).src_of(id as int) == id,
            final(self).tgt_of(id as int) == id,
            final(self).agrees_except(old(self), id as int),
            final(self).free_ids() == old(self).free_after_alloc(),
            final(self).room() == old(self).room() - 1,
    {
        self.create(0, 0, true, true)
    }

    /// A new arrow from the live `src` to the live `tgt`.
    pub fn new_arrow(&mut self, src: EntityId, tgt: EntityId) -> (id: EntityId)
        requires
            old(self).wf(),
            old(self).room() >= 1,
            old(self).is_live(src as int),
            old(self).is_live(tgt as int),
        ensures
            final(self).allocated_from(old(self)),
            final(self).watermark() == (if old(self).free_ids().len() > 0 { old(self).watermark() } else { old(self).watermark() + 1 }),
            final(self).same_components(old(self)),
            final(self).wf(),
            id == old(self).next_id_spec(),
            !old(self).is_live(id as int),
            final(self).is_live(id as int),
            final(self).src_of(id as int) == src,
            final(self).tgt_of(id as int) == tgt,
            final(self).agrees_except(old(self), id as int),
            final(self).free_ids() == old(self).free_after_alloc(),
            final(self).room() == old(self).room() - 1,
    {
        self.create(src, tgt, false, false)
    }

    /// A new tether: its source is the live `src`, its target itself.
    pub fn new_tether(&mut self, src: EntityId) -> (id: EntityId)
        requires
            old(self).wf(),
            old(self).room() >= 1,
            old(self).is_live(src as int),
        ensures
            final(self).allocated_from(old(self)),
            final(self).watermark() == (if old(self).free_ids().len() > 0 { old(self).watermark() } else { old(self).watermark() + 1 }),
            final(self).same_components(old(self)),
            final(self).wf(),
            id == old(self).next_id_spec(),
            !old(self).is_live(id as int),
            final(self).is_live(id as int),
            final(self).src_of(id as int) == src,
            final(self).tgt_of(id as int) == id,
            final(self).agrees_except(old(self), id as int),
            final(self).free_ids() == old(self).free_after_alloc(),
            final(self).room() == old(self).room() - 1,
    {
        self.create(src, 0, false, true)
    }

    /// A new mark: its source is itself, its target the live `tgt`.
    pub fn new_mark(&mut self, tgt: EntityId) -> (id: EntityId)
        requires
            old(self).wf(),
            old(self).room() >= 1,
            old(self).is_live(tgt as int),
        ensures
            final(self).allocated_from(old(self)),
            final(self).watermark() == (if old(self).free_ids().len() > 0 { old(self).watermark() } else { old(self).watermark() + 1 }),
            final(self).same_components(old(self)),
            final(self).wf(),
            id == old(self).next_id_spec(),
            !old(self).is_live(id as int),
            final(self).is_live(id as int),
            final(self).src_of(id as int) == id,
            final(self).tgt_of(id as int) == tgt,
            final(self).agrees_except(old(self), id as int),
            final(self).free_ids() == old(self).free_after_alloc(),
            final(self).room() == old(self).room() - 1,
    {
        self.create(0, tgt, true, false)
    }

    pub fn src(&self, id: EntityId) -> (r: EntityId)
        requires
            self.wf(),
            self.is_live(id as int),
        ensures
            r == self.src_of(id as int),
    {
        self.sources[id]
    }

    pub fn tgt(&self, id: EntityId) -> (r: EntityId)
        requires
            self.wf(),
            self.is_live(id as int),
        ensures
            r == self.tgt_of(id as int),
    {
        self.targets[id]
    }

    /// Points the live `id` at a new source: a live entity or `id` itself.
    pub fn change_src(&mut self, id: EntityId, src: EntityId)
        requires
            old(self).wf(),
            old(self).is_live(id as int),
            old(self).is_live(src as int) || src == id,
        ensures
            final(self).cap() == old(self).cap(),
            final(self).watermark() == old(self).watermark(),
            final(self).same_components(old(self)),
            final(self).wf(),
            final(self).is_live(id as int),
            final(self).src_of(id as int) == src,
            final(self).tgt_of(id as int) == old(self).tgt_of(id as int),
            final(self).agrees_except(old(self), id as int),
            final(self).free_ids() == old(self).free_ids(),
            final(self).room() == old(self).room(),
            final(self).next_id_spec() == old(self).next_id_spec(),
    {
        let ghost pre = *self;
        self.set_src(id, src);
        proof {
            assert forall|i: int| #![trigger self.src_of(i)] #![trigger self.tgt_of(i)] self.is_live(i) implies
                self.is_live(self.src_of(i) as int) && self.is_live(self.tgt_of(i) as int) by {
                let a = pre.src_of(i) as int;
                let b = pre.tgt_of(i) as int;
                assert(self.agrees_at(&pre, i) || i == id);
                assert(pre.is_live(i));
                assert(self.agrees_at(&pre, a) || a == id);
                assert(self.agrees_at(&pre, b) || b == id);
                assert(self.agrees_at(&pre, src as int) || src == id);
            }
            self.lemma_basic_facts();
            Self::lemma_components_kept(pre, *self);
        }
    }

    /// Points the live `id` at a new target: a live entity or `id` itself.
    pub fn change_tgt(&mut self, id: EntityId, tgt: EntityId)
        requires
            old(self).wf(),
            old(self).is_live(id as int),
            old(self).is_live(tgt as int) || tgt == id,
        ensures
            final(self).cap() == old(self).cap(),
            final(self).watermark() == old(self).watermark(),
            final(self).same_components(old(self)),
            final(self).wf(),
            final(self).is_live(id as int),
            final(self).tgt_of(id as int) == tgt,
            final(self).src_of(id as int) == old(self).src_of(id as int),
            final(self).agrees_except(old(self), id as int),
            final(self).free_ids() == old(self).free_ids(),
            final(self).room() == old(self).room(),
            final(self).next_id_spec() == old(self).next_id_spec(),
    {
        let ghost pre = *self;
        self.set_tgt(id, tgt);
        proof {
            assert forall|i: int| #![trigger self.src_of(i)] #![trigger self.tgt_of(i)] self.is_live(i) implies
                self.is_live(self.src_of(i) as int) && self.is_live(self.tgt_of(i) as int) by {
                let a = pre.src_of(i) as int;
                let b = pre.tgt_of(i) as int;
                assert(self.agrees_at(&pre, i) || i == id);
                assert(pre.is_live(i));
                assert(self.agrees_at(&pre, a) || a == id);
                assert(self.agrees_at(&pre, b) || b == id);
                assert(self.agrees_at(&pre, tgt as int) || tgt == id);
            }
            self.lemma_basic_facts();
            Self::lemma_components_kept(pre, *self);
        }
    }

    /// Points the live `id` at new endpoints, each live or `id` itself.
    pub fn change_ends(&mut self, id: EntityId, src: EntityId, tgt: EntityId)
        requires
            old(self).wf(),
            old(self).is_live(id as int),
            old(self).is_live(src as int) || src == id,
            old(self).is_live(tgt as int) || tgt == id,
        ensures
            final(self).cap() == old(self).cap(),
            final(self).watermark() == old(self).watermark(),
            final(self).same_components(old(self)),
            final(self).wf(),
            final(self).is_live(id as int),
            final(self).src_of(id as int) == src,
            final(self).tgt_of(id as int) == tgt,
            final(self).agrees_except(old(self), id as int),
            final(self).free_ids() == old(self).free_ids(),
            final(self).room() == old(self).room(),
            final(self).next_id_spec() == old(self).next_id_spec(),
    {
        let ghost pre = *self;
        self.set_src(id, src);
        let ghost mid = *self;
        assert(mid.agrees_at(&pre, tgt as int) || tgt == id);
        self.set_tgt(id, tgt);
        proof {
            assert forall|i: int| i != id implies #[trigger] self.agrees_at(&pre, i) by {
                assert(self.agrees_at(&mid, i));
                assert(mid.agrees_at(&pre, i));
            }
            assert(self.agrees_at(&pre, src as int) || src == id);
            assert(self.agrees_at(&pre, tgt as int) || tgt == id);
            Self::lemma_wf_after_edit(pre, *self, id as int);
        }
    }

    /// Editing the endpoints of one live entity, to live entities or itself, keeps the
    /// store well formed.
    proof fn lemma_wf_after_edit(pre: Weave, post: Weave, id: int)
        requires
            pre.wf(),
            post.inv_store(),
            post.agrees_except(&pre, id),
            post.same_components(&pre),
            post.is_live(id),
            post.is_live(post.src_of(id) as int) || post.src_of(id) == id,
            post.is_live(post.tgt_of(id) as int) || post.tgt_of(id) == id,
        ensures
            post.wf(),
    {
        assert forall|i: int| #![trigger post.src_of(i)] #![trigger post.tgt_of(i)] post.is_live(i) implies
            post.is_live(post.src_of(i) as int) && post.is_live(post.tgt_of(i) as int) by {
            if i != id {
                assert(post.agrees_at(&pre, i));
                let a = pre.src_of(i) as int;
                let b = pre.tgt_of(i) as int;
                assert(pre.is_live(a) && pre.is_live(b));
                if a != id {
                    assert(post.agrees_at(&pre, a));
                }
                if b != id {
                    assert(post.agrees_at(&pre, b));
                }
            }
        }
        post.lemma_basic_facts();
        Self::lemma_components_kept(pre, post);
    }

    pub fn is_knot(&self, id: EntityId) -> (r: bool)
        requires
            self.wf(),
            self.is_live(id as int),
        ensures
            r == self.is_knot_spec(id as int),
    {
        self.src(id) == id && self.tgt(id) == id
    }

    pub fn is_arrow(&self, id: EntityId) -> (r: bool)
        requires
            self.wf(),
            self.is_live(id as int),
        ensures
            r == self.is_arrow_spec(id as int),
    {
        self.src(id) != id && self.tgt(id) != id
    }

    pub fn is_mark(&self, id: EntityId) -> (r: bool)
        requires
            self.wf(),
            self.is_live(id as int),
        ensures
            r == self.is_mark_spec(id as int),
    {
        self.src(id) == id && self.tgt(id) != id
    }

    pub fn is_tether(&self, id: EntityId) -> (r: bool)
        requires
            self.wf(),
            self.is_live(id as int),
        ensures
            r == self.is_tether_spec(id as int),
    {
        self.src(id) != id && self.tgt(id) == id
    }

    /// `id` names a live entity; ids beyond the store's slots are not live.
    pub fn is_valid(&self, id: EntityId) -> (r: bool)
        requires
            self.wf(),
        ensures
            r == self.is_live(id as int),
    {
        id < self.identities.len() && self.identities[id] == id
    }

    /// `id` is the sentinel that stands for no entity.
    pub fn is_nil(&self, id: EntityId) -> (r: bool)
        ensures
            r == (id == NIL),
    {
        id == NIL
    }

    /// At least one id waits on the freelist.
    pub fn any_free_entities(&self) -> (r: bool)
        ensures
            r == (self.free_ids().len() > 0),
    {
        self.freelist.len() > 0
    }

    /// The recyclable ids, the next one to be reused last.
    pub fn freelist(&self) -> (r: &Vec<EntityId>)
        ensures
            r@ == self.free_ids(),
    {
        &self.freelist
    }

    /// The live entities whose source is `src`, in increasing order.
    pub fn get_dependents_for_source(&self, src: EntityId) -> (r: Vec<EntityId>)
        requires
            self.wf(),
        ensures
            strictly_sorted(r@),
            forall|y: EntityId| #[trigger] r@.contains(y) <==> self.source_set(src as int).contains(y),
    {
        if src < self.source_ids.len() {
            let r = copy_ids(&self.source_ids[src]);
            proof {
                assert forall|y: EntityId| #[trigger] r@.contains(y) <==> self.source_set(src as int).contains(y) by {
                    assert(self.source_ids@[src as int]@.contains(y) <==> (self.is_live(y as int) && self.sources@[y as int] == src));
                }
            }
            r
        } else {
            let r: Vec<EntityId> = Vec::new();
            proof {
                assert forall|y: EntityId| #[trigger] r@.contains(y) <==> self.source_set(src as int).contains(y) by {
                    if self.is_live(y as int) {
                        assert(self.sources@[y as int] < self.identities@.len());
                    }
                }
            }
            r
        }
    }

    /// The live entities whose target is `tgt`, in increasing order.
    pub fn get_dependents_for_target(&self, tgt: EntityId) -> (r: Vec<EntityId>)
        requires
            self.wf(),
        ensures
            strictly_sorted(r@),
            forall|y: EntityId| #[trigger] r@.contains(y) <==> self.target_set(tgt as int).contains(y),
    {
        if tgt < self.target_ids.len() {
            let r = copy_ids(&self.target_ids[tgt]);
            proof {
                assert forall|y: EntityId| #[trigger] r@.contains(y) <==> self.target_set(tgt as int).contains(y) by {
                    assert(self.target_ids@[tgt as int]@.contains(y) <==> (self.is_live(y as int) && self.targets@[y as int] == tgt));
                }
            }
            r
        } else {
            let r: Vec<EntityId> = Vec::new();
            proof {
                assert forall|y: EntityId| #[trigger] r@.contains(y) <==> self.target_set(tgt as int).contains(y) by {
                    if self.is_live(y as int) {
                        assert(self.targets@[y as int] < self.identities@.len());
                    }
                }
            }
            r
        }
    }

    /// The live entities that use `id` as an endpoint, in increasing order.
    pub fn get_dependents(&self, id: EntityId) -> (r: Vec<EntityId>)
        requires
            self.wf(),
        ensures
            strictly_sorted(r@),
            forall|y: EntityId| #[trigger] r@.contains(y) <==> self.dependent_set(id as int).contains(y),
    {
        let a = self.get_dependents_for_source(id);
        let b = self.get_dependents_for_target(id);
        merge_sorted(&a, &b)
    }

    /// The live entities other than `id` that use `id` as an endpoint, in increasing order.
    pub fn get_external_dependents(&self, id: EntityId) -> (r: Vec<EntityId>)
        requires
            self.wf(),
        ensures
            strictly_sorted(r@),
            forall|y: EntityId| #[trigger] r@.contains(y) <==> (self.dependent_set(id as int).contains(y) && y != id),
    {
        let mut r = self.get_dependents(id);
        remove_sorted(&mut r, id);
        r
    }

    /// `x` is live and uses `y` as an endpoint.
    pub open spec fn depends_on(&self, x: int, y: int) -> bool {
        self.is_live(x) && (self.src_of(x) == y || self.tgt_of(x) == y)
    }

    /// Each element of `path` after the first depends on the one before it.
    pub open spec fn is_chain(&self, path: Seq<EntityId>) -> bool {
        forall|k: int| 0 <= k < path.len() - 1 ==> #[trigger] self.depends_on(path[k + 1] as int, path[k] as int)
    }

    /// `x` is reached from `r` through reverse adjacency (dependents of dependents ...).
    pub open spec fn reaches(&self, r: int, x: int) -> bool {
        exists|path: Seq<EntityId>|
            path.len() >= 1 && path[0] == r && path.last() == x && #[trigger] self.is_chain(path)
    }

    /// Kills the live `n`: pushes it on the freelist and drops it from the reverse index.
    /// Returns the live entities that still use `n` as an endpoint.
    fn kill(&mut self, n: EntityId) -> (deps: Vec<EntityId>)
        requires
            old(self).inv_store(),
            old(self).is_live(n as int),
        ensures
            final(self).watermark() == old(self).watermark(),
            final(self).same_components(old(self)),
            final(self).inv_store(),
            !final(self).is_live(n as int),
            final(self).agrees_except(old(self), n as int),
            final(self).freelist@ == old(self).freelist@.push(n),
            final(self).room() == old(self).room() + 1,
            final(self).cap() == old(self).cap(),
            final(self).available == old(self).available,
            strictly_sorted(deps@),
            forall|y: EntityId| #[trigger] deps@.contains(y) <==> final(self).depends_on(y as int, n as int),
    {
        let ghost pre = *self;
        self.identities[n] = NIL;
        self.freelist.push(n);
        let s = self.sources[n];
        let t = self.targets[n];
        remove_sorted(&mut self.source_ids[s], n);
        remove_sorted(&mut self.target_ids[t], n);
        let a = copy_ids(&self.source_ids[n]);
        let b = copy_ids(&self.target_ids[n]);
        let deps = merge_sorted(&a, &b);
        proof {
            let m = self.identities@.len() as int;
            assert forall|i: int| i != n implies #[trigger] self.agrees_at(&pre, i) by {
                if 0 <= i < m {
                    assert(self.identities@[i] == pre.identities@[i]);
                }
            }
            assert forall|i: int| #[trigger] self.is_live(i) implies
                self.sources@[i] < m && self.targets@[i] < m by {
                assert(self.agrees_at(&pre, i));
            }
            assert forall|e: int, x: EntityId| 0 <= e < m implies
                (#[trigger] self.source_ids@[e]@.contains(x) <==> (self.is_live(x as int) && self.sources@[x as int] == e)) by {
                if e != s {
                    assert(self.source_ids@[e] == pre.source_ids@[e]);
                }
                if x != n {
                    assert(self.agrees_at(&pre, x as int));
                }
            }
            assert forall|e: int, x: EntityId| 0 <= e < m implies
                (#[trigger] self.target_ids@[e]@.contains(x) <==> (self.is_live(x as int) && self.targets@[x as int] == e)) by {
                if e != t {
                    assert(self.target_ids@[e] == pre.target_ids@[e]);
                }
                if x != n {
                    assert(self.agrees_at(&pre, x as int));
                }
            }
            assert forall|e: int| 0 <= e < m implies strictly_sorted(#[trigger] self.source_ids@[e]@) by {
                if e != s {
                    assert(self.source_ids@[e] == pre.source_ids@[e]);
                }
            }
            assert forall|e: int| 0 <= e < m implies strictly_sorted(#[trigger] self.target_ids@[e]@) by {
                if e != t {
                    assert(self.target_ids@[e] == pre.target_ids@[e]);
                }
            }
            assert(n < m - self.available);
            assert forall|k: int| 0 <= k < self.freelist@.len() implies
                #[trigger] self.freelist@[k] < m - self.available
                && self.identities@[self.freelist@[k] as int] == NIL by {
                if k < pre.freelist@.len() {
                    assert(self.freelist@[k] == pre.freelist@[k]);
                }
            }
            assert(self.freelist@.no_duplicates()) by {
                assert forall|i: int, j: int| 0 <= i < j < self.freelist@.len() implies
                    self.freelist@[i] != self.freelist@[j] by {
                    if j == pre.freelist@.len() {
                        assert(pre.identities@[pre.freelist@[i] as int] == NIL);
                    } else {
                        assert(self.freelist@[i] == pre.freelist@[i]);
                        assert(self.freelist@[j] == pre.freelist@[j]);
                    }
                }
            }
            assert forall|y: EntityId| #[trigger] deps@.contains(y) <==> self.depends_on(y as int, n as int) by {
                assert(a@.contains(y) <==> (self.is_live(y as int) && self.sources@[y as int] == n));
                assert(b@.contains(y) <==> (self.is_live(y as int) && self.targets@[y as int] == n));
            }
        }
        deps
    }

    /// Where the live `d` uses `gone` as an endpoint, it uses itself instead.
    fn reroot(&mut self, d: EntityId, gone: EntityId)
        requires
            old(self).inv_store(),
            old(self).is_live(d as int),
        ensures
            final(self).watermark() == old(self).watermark(),
            final(self).same_components(old(self)),
            final(self).inv_store(),
            final(self).agrees_except(old(self), d as int),
            final(self).is_live(d as int),
            final(self).src_of(d as int) == (if old(self).src_of(d as int) == gone { d } else { old(self).src_of(d as int) }),
            final(self).tgt_of(d as int) == (if old(self).tgt_of(d as int) == gone { d } else { old(self).tgt_of(d as int) }),
            final(self).freelist@ == old(self).freelist@,
            final(self).room() == old(self).room(),
            final(self).cap() == old(self).cap(),
    {
        let ghost pre = *self;
        if self.sources[d] == gone {
            self.set_src(d, d);
        }
        let ghost mid = *self;
        if self.targets[d] == gone {
            self.set_tgt(d, d);
        }
        proof {
            assert forall|i: int| i != d implies #[trigger] self.agrees_at(&pre, i) by {
                assert(self.agrees_at(&mid, i));
                assert(mid.agrees_at(&pre, i));
            }
        }
    }

    /// Deletes `id` alone (no effect if it is not live). Each entity that used it as an
    /// endpoint now uses itself there instead, and stays live.
    pub fn delete_orphan(&mut self, id: EntityId)
        requires
            old(self).wf(),
        ensures
            final(self).watermark() == old(self).watermark(),
            final(self).same_components(old(self)),
            final(self).wf(),
            !final(self).is_live(id as int),
            forall|i: int| i != id ==> #[trigger] final(self).is_live(i) == old(self).is_live(i),
            forall|i: int| i != id && old(self).is_live(i) ==>
                #[trigger] final(self).src_of(i) == (if old(self).src_of(i) == id { i as EntityId } else { old(self).src_of(i) })
                && final(self).tgt_of(i) == (if old(self).tgt_of(i) == id { i as EntityId } else { old(self).tgt_of(i) }),
            final(self).free_ids() == (if old(self).is_live(id as int) { old(self).free_ids().push(id) } else { old(self).free_ids() }),
            final(self).room() >= old(self).room(),
    {
        if id >= self.identities.len() || self.identities[id] != id {
            return;
        }
        let ghost pre = *self;
        let deps = self.kill(id);
        let ghost mid = *self;
        let mut k: usize = 0;
        while k < deps.len()
            invariant
                self.inv_store(),
                self.same_components(&pre),
                self.cap() == pre.cap(),
                self.freelist@ == mid.freelist@,
                self.room() == mid.room(),
                !self.is_live(id as int),
                k <= deps@.len(),
                forall|y: EntityId| #[trigger] deps@.contains(y) <==> mid.depends_on(y as int, id as int),
                forall|i: int| i != id ==> #[trigger] mid.agrees_at(&pre, i),
                forall|i: int| #[trigger] self.is_live(i) == mid.is_live(i),
                forall|i: int| #[trigger] mid.is_live(i) ==>
                    (self.src_of(i) == mid.src_of(i) || (mid.src_of(i) == id && self.src_of(i) == i))
                    && (self.tgt_of(i) == mid.tgt_of(i) || (mid.tgt_of(i) == id && self.tgt_of(i) == i)),
                forall|j: int| 0 <= j < k ==>
                    self.src_of(#[trigger] deps@[j] as int) != id && self.tgt_of(deps@[j] as int) != id,
            decreases deps@.len() - k,
        {
            let d = deps[k];
            let ghost before = *self;
            assert(deps@.contains(d));
            assert(mid.is_live(d as int));
            assert(self.is_live(d as int));
            self.reroot(d, id);
            proof {
                assert forall|i: int| #[trigger] self.is_live(i) == mid.is_live(i) by {
                    assert(self.agrees_at(&before, i) || i == d);
                }
                assert forall|i: int| #[trigger] mid.is_live(i) implies
                    (self.src_of(i) == mid.src_of(i) || (mid.src_of(i) == id && self.src_of(i) == i))
                    && (self.tgt_of(i) == mid.tgt_of(i) || (mid.tgt_of(i) == id && self.tgt_of(i) == i)) by {
                    if i != d {
                        assert(self.agrees_at(&before, i));
                    }
                }
                assert(d != id);
                assert forall|j: int| 0 <= j < k + 1 implies
                    self.src_of(#[trigger] deps@[j] as int) != id && self.tgt_of(deps@[j] as int) != id by {
                    assert(deps@.contains(deps@[j]));
                    if deps@[j] != d {
                        assert(self.agrees_at(&before, deps@[j] as int));
                    }
                }
            }
            k = k + 1;
        }
        proof {
            assert forall|i: int| #[trigger] mid.is_live(i) implies
                self.src_of(i) == (if mid.src_of(i) == id { i as EntityId } else { mid.src_of(i) })
                && self.tgt_of(i) == (if mid.tgt_of(i) == id { i as EntityId } else { mid.tgt_of(i) }) by {
                if mid.src_of(i) == id || mid.tgt_of(i) == id {
                    assert(deps@.contains(i as EntityId));
                    let j = choose|j: int| 0 <= j < deps@.len() && deps@[j] == i;
                    assert(self.src_of(deps@[j] as int) != id);
                }
            }
            assert forall|i: int| i != id implies #[trigger] self.is_live(i) == pre.is_live(i) by {
                assert(mid.agrees_at(&pre, i));
            }
            assert forall|i: int| i != id && pre.is_live(i) implies
                #[trigger] self.src_of(i) == (if pre.src_of(i) == id { i as EntityId } else { pre.src_of(i) })
                && self.tgt_of(i) == (if pre.tgt_of(i) == id { i as EntityId } else { pre.tgt_of(i) }) by {
                assert(mid.agrees_at(&pre, i));
                assert(mid.is_live(i));
            }
            assert forall|i: int| #![trigger self.src_of(i)] #![trigger self.tgt_of(i)] self.is_live(i) implies
                self.is_live(self.src_of(i) as int) && self.is_live(self.tgt_of(i) as int) by {
                assert(mid.is_live(i));
                assert(mid.agrees_at(&pre, i));
                assert(pre.is_live(i));
                let a = pre.src_of(i) as int;
                let b = pre.tgt_of(i) as int;
                assert(pre.is_live(a) && pre.is_live(b));
                if a != id {
                    assert(mid.agrees_at(&pre, a));
                }
                if b != id {
                    assert(mid.agrees_at(&pre, b));
                }
            }
            self.lemma_basic_facts();
            Self::lemma_components_kept(pre, *self);
        }
    }

    /// Deletes `id` and, transitively, every entity that uses a deleted entity as an
    /// endpoint. No effect if `id` is not live.
    #[verifier::rlimit(100)]
    pub fn delete_cascade(&mut self, id: EntityId)
        requires
            old(self).wf(),
        ensures
            final(self).watermark() == old(self).watermark(),
            final(self).same_components(old(self)),
            final(self).wf(),
            !final(self).is_live(id as int),
            final(self).only_removed(old(self)),
            forall|i: int| old(self).is_live(i) && !final(self).is_live(i) ==> #[trigger] old(self).reaches(id as int, i),
            forall|i: int| #[trigger] old(self).reaches(id as int, i) ==> !final(self).is_live(i),
            final(self).free_ids().len() >= old(self).free_ids().len(),
            final(self).free_ids().subrange(0, old(self).free_ids().len() as int) == old(self).free_ids(),
            forall|k: int| old(self).free_ids().len() <= k < final(self).free_ids().len() ==>
                old(self).is_live(#[trigger] final(self).free_ids()[k] as int),
            forall|i: int| old(self).is_live(i) && !final(self).is_live(i) ==> #[trigger] final(self).free_ids().contains(i as EntityId),
            final(self).room() >= old(self).room(),
    {
        let ghost pre = *self;
        if id >= self.identities.len() {
            proof {
                assert forall|i: int| #[trigger] pre.reaches(id as int, i) implies !self.is_live(i) by {
                    let path = choose|path: Seq<EntityId>|
                        path.len() >= 1 && path[0] == id && path.last() == i && #[trigger] pre.is_chain(path);
                    Self::lemma_chain_dead(pre, *self, path);
                }
                assert(self.freelist@.subrange(0, pre.freelist@.len() as int) =~= pre.freelist@);
            }
            return;
        }
        let mut queue: Vec<EntityId> = Vec::new();
        queue.push(id);
        let mut head: usize = 0;
        proof {
            let single = seq![id];
            assert(pre.is_chain(single));
            assert(queue@[0] == id);
            assert(self.freelist@.subrange(0, pre.freelist@.len() as int) =~= pre.freelist@);
        }
        while head < queue.len()
            invariant
                self.inv_store(),
                self.same_components(&pre),
                self.cap() == pre.cap(),
                self.available == pre.available,
                head <= queue@.len(),
                forall|j: int| 0 <= j < queue@.len() ==> (#[trigger] queue@[j]) < self.cap(),
                forall|j: int| 0 <= j < queue@.len() ==> pre.reaches(id as int, #[trigger] queue@[j] as int),
                self.is_live(id as int) ==> (exists|j: int| head <= j < queue@.len() && queue@[j] == id),
                self.only_removed(&pre),
                forall|x: int| #![trigger self.src_of(x)] #![trigger self.tgt_of(x)]
                    self.is_live(x) && (!self.is_live(self.src_of(x) as int) || !self.is_live(self.tgt_of(x) as int)) ==>
                    (exists|j: int| head <= j < queue@.len() && queue@[j] == x),
                self.freelist@.len() >= pre.freelist@.len(),
                self.freelist@.subrange(0, pre.freelist@.len() as int) == pre.freelist@,
                forall|k: int| pre.freelist@.len() <= k < self.freelist@.len() ==>
                    pre.is_live(#[trigger] self.freelist@[k] as int) && pre.reaches(id as int, self.freelist@[k] as int),
                forall|i: int| pre.is_live(i) && !self.is_live(i) ==> #[trigger] self.freelist@.contains(i as EntityId),
                self.room() >= pre.room(),
            decreases self.cap() - self.freelist@.len(), queue@.len() - head,
        {
            proof {
                lemma_bounded_len(self.freelist@, self.cap());
            }
            let n = queue[head];
            head = head + 1;
            if self.identities[n] != n {
                proof {
                    assert forall|x: int| #![trigger self.src_of(x)] #![trigger self.tgt_of(x)]
                        self.is_live(x) && (!self.is_live(self.src_of(x) as int) || !self.is_live(self.tgt_of(x) as int)) implies
                        (exists|j: int| head <= j < queue@.len() && queue@[j] == x) by {
                        let j = choose|j: int| head - 1 <= j < queue@.len() && queue@[j] == x;
                        assert(j != head - 1);
                    }
                    if self.is_live(id as int) {
                        let j = choose|j: int| head - 1 <= j < queue@.len() && queue@[j] == id;
                        assert(j != head - 1);
                    }
                }
                continue;
            }
            let ghost before = *self;
            let ghost qb = queue@;
            proof {
                assert(before.kept_at(&pre, n as int));
                assert(pre.reaches(id as int, queue@[head - 1] as int));
            }
            let ghost path_n = choose|path: Seq<EntityId>|
                path.len() >= 1 && path[0] == id && path.last() == n && #[trigger] pre.is_chain(path);
            let deps = self.kill(n);
            append_ids(&mut queue, &deps);
            proof {
                lemma_bounded_len(self.freelist@, self.cap());
                assert forall|x: int| #[trigger] self.kept_at(&pre, x) by {
                    if self.is_live(x) {
                        assert(x != n);
                        assert(self.agrees_at(&before, x));
                        assert(before.kept_at(&pre, x));
                    }
                }
                assert forall|j: int| 0 <= j < queue@.len() implies (#[trigger] queue@[j]) < self.cap()
                    && pre.reaches(id as int, queue@[j] as int) by {
                    if j >= qb.len() {
                        let y = queue@[j];
                        assert(deps@[j - qb.len()] == y);
                        assert(deps@.contains(y));
                        assert(self.depends_on(y as int, n as int));
                        assert(self.kept_at(&pre, y as int));
                        assert(pre.depends_on(y as int, n as int));
                        let longer = path_n.push(y);
                        assert forall|k: int| 0 <= k < longer.len() - 1 implies #[trigger] pre.depends_on(longer[k + 1] as int, longer[k] as int) by {
                            if k < path_n.len() - 1 {
                                assert(longer[k + 1] == path_n[k + 1] && longer[k] == path_n[k]);
                            }
                        }
                        assert(pre.is_chain(longer));
                    } else {
                        assert(queue@[j] == qb[j]);
                    }
                }
                assert forall|x: int| #![trigger self.src_of(x)] #![trigger self.tgt_of(x)]
                    self.is_live(x) && (!self.is_live(self.src_of(x) as int) || !self.is_live(self.tgt_of(x) as int)) implies
                    (exists|j: int| head <= j < queue@.len() && queue@[j] == x) by {
                    assert(self.agrees_at(&before, x));
                    let s = self.src_of(x) as int;
                    let t = self.tgt_of(x) as int;
                    assert(self.agrees_at(&before, s) || s == n);
                    assert(self.agrees_at(&before, t) || t == n);
                    if s == n || t == n {
                        assert(self.depends_on(x, n as int));
                        assert(deps@.contains(x as EntityId));
                        let k = choose|k: int| 0 <= k < deps@.len() && deps@[k] == x;
                        assert(queue@[qb.len() + k] == x);
                    } else {
                        assert(before.src_of(x) == self.src_of(x));
                        let j = choose|j: int| head - 1 <= j < qb.len() && qb[j] == x;
                        assert(j != head - 1);
                        assert(queue@[j] == x);
                    }
                }
                if self.is_live(id as int) {
                    assert(self.agrees_at(&before, id as int));
                    assert(before.is_live(id as int));
                    assert(exists|j: int| head - 1 <= j < qb.len() && qb[j] == id);
                    let j = choose|j: int| head - 1 <= j < qb.len() && qb[j] == id;
                    assert(j != head - 1);
                    assert(queue@[j] == id);
                }
                assert(self.freelist@.subrange(0, pre.freelist@.len() as int) =~= before.freelist@.subrange(0, pre.freelist@.len() as int));
                assert forall|k: int| pre.freelist@.len() <= k < self.freelist@.len() implies
                    pre.is_live(#[trigger] self.freelist@[k] as int) && pre.reaches(id as int, self.freelist@[k] as int) by {
                    if k < before.freelist@.len() {
                        assert(self.freelist@[k] == before.freelist@[k]);
                    } else {
                        assert(self.freelist@[k] == n);
                        assert(pre.is_chain(path_n));
                    }
                }
                assert forall|i: int| pre.is_live(i) && !self.is_live(i) implies #[trigger] self.freelist@.contains(i as EntityId) by {
                    if i == n {
                        assert(self.freelist@[before.freelist@.len() as int] == n);
                    } else {
                        assert(self.agrees_at(&before, i));
                        assert(before.freelist@.contains(i as EntityId));
                        let k = choose|k: int| 0 <= k < before.freelist@.len() && before.freelist@[k] == i;
                        assert(self.freelist@[k] == i);
                    }
                }
            }
        }
        proof {
            assert forall|i: int| #![trigger self.src_of(i)] #![trigger self.tgt_of(i)] self.is_live(i) implies
                self.is_live(self.src_of(i) as int) && self.is_live(self.tgt_of(i) as int) by {
                if !self.is_live(self.src_of(i) as int) || !self.is_live(self.tgt_of(i) as int) {
                    let j = choose|j: int| head <= j < queue@.len() && queue@[j] == i;
                }
            }
            self.lemma_basic_facts();
            Self::lemma_components_kept(pre, *self);
            assert forall|i: int| #[trigger] pre.reaches(id as int, i) implies !self.is_live(i) by {
                let path = choose|path: Seq<EntityId>|
                    path.len() >= 1 && path[0] == id && path.last() == i && #[trigger] pre.is_chain(path);
                Self::lemma_chain_dead(pre, *self, path);
            }
            assert forall|i: int| pre.is_live(i) && !self.is_live(i) implies #[trigger] pre.reaches(id as int, i) by {
                assert(self.freelist@.contains(i as EntityId));
                let k = choose|k: int| 0 <= k < self.freelist@.len() && self.freelist@[k] == i;
                if k < pre.freelist@.len() {
                    assert(self.freelist@.subrange(0, pre.freelist@.len() as int)[k] == pre.freelist@[k]);
                    assert(pre.freelist@[k] < pre.cap() - pre.available);
                    assert(pre.identities@[pre.freelist@[k] as int] == NIL);
                    assert(!pre.is_live(pre.freelist@[k] as int));
                }
            }
        }
    }

    /// Along a chain of dependents in `pre` whose first element is dead in `post`, every
    /// element is dead in `post`, when `post` is well formed and only removed entities.
    proof fn lemma_chain_dead(pre: Weave, post: Weave, path: Seq<EntityId>)
        requires
            post.wf(),
            post.only_removed(&pre),
            path.len() >= 1,
            !post.is_live(path[0] as int),
            pre.is_chain(path),
        ensures
            !post.is_live(path.last() as int),
        decreases path.len(),
    {
        if path.len() > 1 {
            let shorter = path.drop_last();
            assert forall|k: int| 0 <= k < shorter.len() - 1 implies #[trigger] pre.depends_on(shorter[k + 1] as int, shorter[k] as int) by {
                assert(pre.depends_on(path[k + 1] as int, path[k] as int));
            }
            Self::lemma_chain_dead(pre, post, shorter);
            let k = path.len() - 2;
            assert(pre.depends_on(path[k + 1] as int, path[k] as int));
            let x = path.last() as int;
            if post.is_live(x) {
                assert(post.kept_at(&pre, x));
                assert(post.src_of(x) == pre.src_of(x));
                assert(post.is_live(post.src_of(x) as int) && post.is_live(post.tgt_of(x) as int));
            }
        }
    }

    /// The store keeps the same entities; only datatypes and components may differ.
    pub open spec fn same_entities(&self, old: &Weave) -> bool {
        &&& self.same_graph(old)
        &&& self.free_ids() == old.free_ids()
        &&& self.room() == old.room()
        &&& self.next_id_spec() == old.next_id_spec()
        &&& self.watermark() == old.watermark()
        &&& self.cap() == old.cap()
    }

    /// Everything but the datatype registry is as in `old`.
    pub closed spec fn same_store(&self, old: &Weave) -> bool {
        &&& self.available == old.available
        &&& self.freelist == old.freelist
        &&& self.identities == old.identities
        &&& self.sources == old.sources
        &&& self.targets == old.targets
        &&& self.source_ids == old.source_ids
        &&& self.target_ids == old.target_ids
    }

    proof fn lemma_same_store(pre: Weave, post: Weave)
        requires
            pre.wf(),
            post.same_store(&pre),
            post.inv_components(),
        ensures
            post.wf(),
            post.same_entities(&pre),
    {
        assert forall|i: int| #[trigger] post.is_live(i) == pre.is_live(i) by {}
        assert forall|i: int| #[trigger] post.agrees_at(&pre, i) by {}
        let n = post.identities@.len();
        assert forall|i: int| #[trigger] post.is_live(i) implies post.sources@[i] < n && post.targets@[i] < n by {
            assert(pre.is_live(i));
        }
        assert forall|e: int, x: EntityId| 0 <= e < n implies
            (#[trigger] post.source_ids@[e]@.contains(x) <==> (post.is_live(x as int) && post.sources@[x as int] == e)) by {
            assert(pre.source_ids@[e]@.contains(x) <==> (pre.is_live(x as int) && pre.sources@[x as int] == e));
            assert(post.is_live(x as int) == pre.is_live(x as int));
        }
        assert forall|e: int, x: EntityId| 0 <= e < n implies
            (#[trigger] post.target_ids@[e]@.contains(x) <==> (post.is_live(x as int) && post.targets@[x as int] == e)) by {
            assert(pre.target_ids@[e]@.contains(x) <==> (pre.is_live(x as int) && pre.targets@[x as int] == e));
            assert(post.is_live(x as int) == pre.is_live(x as int));
        }
        assert forall|i: int| 0 <= i < n implies #[trigger] post.identities@[i] == i || post.identities@[i] == NIL by {
            assert(pre.identities@[i] == i || pre.identities@[i] == NIL);
        }
        assert forall|e: int| 0 <= e < n implies strictly_sorted(#[trigger] post.source_ids@[e]@) by {
            assert(strictly_sorted(pre.source_ids@[e]@));
        }
        assert forall|e: int| 0 <= e < n implies strictly_sorted(#[trigger] post.target_ids@[e]@) by {
            assert(strictly_sorted(pre.target_ids@[e]@));
        }
        assert(post.inv_store());
        assert forall|i: int| #![trigger post.src_of(i)] #![trigger post.tgt_of(i)] post.is_live(i) implies
            post.is_live(post.src_of(i) as int) && post.is_live(post.tgt_of(i) as int) by {
            assert(pre.is_live(pre.src_of(i) as int));
        }
        post.lemma_basic_facts();
    }

    /// A new store, with room reserved for its first entities, and the datatypes
    /// `Identity(id: Entity)`, `With(name: String)` and `Without(name: String)` defined.
    pub fn new() -> (wv: Weave)
        ensures
            wv.wf(),
            forall|i: int| !wv.is_live(i),
            wv.free_ids() == Seq::<EntityId>::empty(),
            wv.next_id_spec() == 0,
            wv.watermark() == 0,
            wv.room() == usize::MAX - 1,
            wv.has_datatype(datatype_id_of("Identity"@)),
            wv.has_datatype(datatype_id_of("With"@)),
            wv.has_datatype(datatype_id_of("Without"@)),
    {
        let mut wv = Weave::new_store();
        let ghost w0 = wv;
        let mut id_fields: Vec<DataField> = Vec::new();
        id_fields.push(DataField { name: "id".to_string(), datatype: Datatype::Entity });
        wv.def_datatype("Identity", id_fields.as_slice());
        let mut with_fields: Vec<DataField> = Vec::new();
        with_fields.push(DataField { name: "name".to_string(), datatype: Datatype::String });
        wv.def_datatype("With", with_fields.as_slice());
        let mut without_fields: Vec<DataField> = Vec::new();
        without_fields.push(DataField { name: "name".to_string(), datatype: Datatype::String });
        wv.def_datatype("Without", without_fields.as_slice());
        proof {
            assert(wv.agrees_at(&w0, 0));
            assert forall|i: int| !wv.is_live(i) by {
                assert(wv.agrees_at(&w0, i));
            }
        }
        wv
    }

    /// Defines the datatype `name` with the given fields and returns its id. A datatype
    /// already defined keeps its first schema and name.
    pub fn def_datatype(&mut self, name: &str, fields: &[DataField]) -> (r: DatatypeId)
        requires
            old(self).wf(),
        ensures
            final(self).wf(),
            final(self).same_entities(old(self)),
            r == datatype_id_of(name@),
            final(self).has_datatype(r),
            old(self).has_datatype(r) ==> final(self).fields_of(r) == old(self).fields_of(r),
            !old(self).has_datatype(r) ==> final(self).fields_of(r).len() == fields@.len(),
            old(self).name_of_type(r) is None ==> final(self).name_of_type(r) == Some(name@),
            old(self).name_of_type(r) is Some ==> final(self).name_of_type(r) == old(self).name_of_type(r),
            forall|d: DatatypeId| d != r ==> final(self).has_datatype(d) == old(self).has_datatype(d)
                && final(self).fields_of(d) == old(self).fields_of(d)
                && final(self).name_of_type(d) == old(self).name_of_type(d),
            forall|d: DatatypeId, e: EntityId| #[trigger] final(self).component(d, e) == old(self).component(d, e),
            forall|e: EntityId| #[trigger] final(self).archetype(e) == old(self).archetype(e),
    {
        let ghost pre = *self;
        let id = type_id(name);
        if !self.types.contains_key(&id) {
            let mut v: Vec<DataField> = Vec::new();
            let mut k: usize = 0;
            while k < fields.len()
                invariant
                    k <= fields@.len(),
                    v@.len() == k,
                decreases fields@.len() - k,
            {
                v.push(fields[k].clone());
                k = k + 1;
            }
            self.types.insert(id, v);
        }
        if !self.type_names.contains_key(&id) {
            self.type_names.insert(id, name.to_string());
        }
        proof {
            assert forall|e: EntityId| #[trigger] self.archetype(e).no_duplicates()
                && forall|dt: DatatypeId| self.archetype(e).contains(dt) <==> (#[trigger] self.component(dt, e)) is Some by {
                assert(self.archetype(e) == pre.archetype(e));
                assert(pre.archetype(e).no_duplicates());
                assert forall|dt: DatatypeId| self.archetype(e).contains(dt) <==> (#[trigger] self.component(dt, e)) is Some by {
                    assert(self.component(dt, e) == pre.component(dt, e));
                    assert(pre.archetype(e).contains(dt) <==> pre.component(dt, e) is Some);
                }
            }
            Self::lemma_same_store(pre, *self);
        }
        id
    }

    /// The id of the datatype `name`, or `NIL` (as a datatype id) if it is not defined.
    pub fn get_datatype_id(&self, name: &str) -> (r: DatatypeId)
        requires
            self.wf(),
        ensures
            r == (if self.has_datatype(datatype_id_of(name@)) { datatype_id_of(name@) } else { NIL as DatatypeId }),
    {
        let id = type_id(name);
        if self.types.contains_key(&id) {
            id
        } else {
            NIL as DatatypeId
        }
    }

    /// The number of fields of the datatype `name`, 0 if it is not defined.
    pub fn get_datatype_field_count(&self, name: &str) -> (r: usize)
        requires
            self.wf(),
        ensures
            r == (if self.has_datatype(datatype_id_of(name@)) { self.fields_of(datatype_id_of(name@)).len() } else { 0 }),
    {
        let id = type_id(name);
        match self.types.get(&id) {
            Some(v) => v.len(),
            None => 0,
        }
    }

    /// The field at `index` of the defined datatype `name`.
    pub fn get_datatype_field(&self, name: &str, index: usize) -> (r: DataField)
        requires
            self.wf(),
            self.has_datatype(datatype_id_of(name@)),
            index < self.fields_of(datatype_id_of(name@)).len(),
        ensures
            (r.name@, r.datatype) == self.fields_of(datatype_id_of(name@))[index as int],
    {
        let id = type_id(name);
        let v = self.types.get(&id).unwrap();
        let f = &v[index];
        DataField { name: f.name.clone(), datatype: f.datatype }
    }

    /// The recorded name of datatype `dt`, if any.
    pub fn get_type_name(&self, dt: DatatypeId) -> (r: Option<String>)
        requires
            self.wf(),
        ensures
            r is Some <==> self.name_of_type(dt) is Some,
            r matches Some(n) ==> self.name_of_type(dt) == Some(n@),
    {
        match self.type_names.get(&dt) {
            Some(n) => Some(n.clone()),
            None => None,
        }
    }

    /// Attaches `payload` to `entity` under the datatype `name`. An existing component of
    /// that datatype on `entity` is kept as it is.
    pub fn add_component_raw(&mut self, entity: EntityId, name: &str, payload: &[u8])
        requires
            old(self).wf(),
        ensures
            final(self).wf(),
            final(self).same_entities(old(self)),
            forall|d: DatatypeId| #[trigger] final(self).has_datatype(d) == old(self).has_datatype(d),
            forall|d: DatatypeId| #[trigger] final(self).name_of_type(d) == old(self).name_of_type(d),
            forall|d: DatatypeId, e: EntityId| #[trigger] final(self).component(d, e) ==
                (if d == datatype_id_of(name@) && e == entity && old(self).component(d, e) is None {
                    Some(payload@)
                } else {
                    old(self).component(d, e)
                }),
            forall|e: EntityId| #[trigger] final(self).archetype(e) ==
                (if e == entity && old(self).component(datatype_id_of(name@), e) is None {
                    old(self).archetype(e).push(datatype_id_of(name@))
                } else {
                    old(self).archetype(e)
                }),
    {
        let ghost pre = *self;
        let id = type_id(name);
        let mut inner = match self.data.remove(&id) {
            Some(m) => m,
            None => HashMap::new(),
        };
        let ghost fresh = !inner@.contains_key(entity);
        if !inner.contains_key(&entity) {
            inner.insert(entity, copy_bytes(payload));
            lists_insert(&mut self.archetypes, entity, id);
        }
        self.data.insert(id, inner);
        proof {
            assert forall|d: DatatypeId, e: EntityId| #[trigger] self.component(d, e) ==
                (if d == id && e == entity && pre.component(d, e) is None { Some(payload@) } else { pre.component(d, e) }) by {
                if d != id {
                    assert(self.data@[d] == pre.data@[d]);
                }
            }
            assert forall|e: EntityId| #[trigger] self.archetype(e) ==
                (if e == entity && pre.component(id, e) is None { pre.archetype(e).push(id) } else { pre.archetype(e) }) by {
            }
            assert forall|e: EntityId| #[trigger] self.archetype(e).no_duplicates()
                && forall|dt: DatatypeId| self.archetype(e).contains(dt) <==> (#[trigger] self.component(dt, e)) is Some by {
                assert(pre.archetype(e).no_duplicates());
                assert forall|dt: DatatypeId| self.archetype(e).contains(dt) <==> (#[trigger] self.component(dt, e)) is Some by {
                    assert(pre.archetype(e).contains(dt) <==> pre.component(dt, e) is Some);
                    if e == entity && pre.component(id, e) is None {
                        assert(self.archetype(e) == pre.archetype(e).push(id));
                        if dt == id {
                            assert(self.archetype(e)[pre.archetype(e).len() as int] == id);
                        } else if self.archetype(e).contains(dt) {
                            let k = choose|k: int| 0 <= k < self.archetype(e).len() && self.archetype(e)[k] == dt;
                            assert(pre.archetype(e)[k] == dt);
                        } else if pre.archetype(e).contains(dt) {
                            let k = choose|k: int| 0 <= k < pre.archetype(e).len() && pre.archetype(e)[k] == dt;
                            assert(self.archetype(e)[k] == dt);
                        }
                    }
                }
                if e == entity && pre.component(id, e) is None {
                    assert(!pre.archetype(e).contains(id));
                    assert forall|a: int, b: int| 0 <= a < b < self.archetype(e).len() implies
                        self.archetype(e)[a] != self.archetype(e)[b] by {
                        if b == pre.archetype(e).len() {
                            assert(pre.archetype(e)[a] == self.archetype(e)[a]);
                        } else {
                            assert(pre.archetype(e)[a] == self.archetype(e)[a]);
                            assert(pre.archetype(e)[b] == self.archetype(e)[b]);
                        }
                    }
                }
            }
            Self::lemma_same_store(pre, *self);
        }
    }

    /// `entity` carries a component of the datatype `name`.
    pub fn has_component(&self, entity: EntityId, name: &str) -> (r: bool)
        requires
            self.wf(),
        ensures
            r == self.component(datatype_id_of(name@), entity) is Some,
    {
        let id = type_id(name);
        match self.data.get(&id) {
            Some(m) => m.contains_key(&entity),
            None => false,
        }
    }

    /// A copy of the payload `entity` carries under the datatype `name`, if any.
    pub fn get_component_raw(&self, entity: EntityId, name: &str) -> (r: Option<Vec<u8>>)
        requires
            self.wf(),
        ensures
            r is Some <==> self.component(datatype_id_of(name@), entity) is Some,
            r matches Some(v) ==> self.component(datatype_id_of(name@), entity) == Some(v@),
    {
        let id = type_id(name);
        match self.data.get(&id) {
            Some(m) => match m.get(&entity) {
                Some(v) => Some(copy_bytes(v.as_slice())),
                None => None,
            },
            None => None,
        }
    }

    /// Detaches the component of the datatype `name` from `entity`, if it has one.
    pub fn remove_component(&mut self, entity: EntityId, name: &str)
        requires
            old(self).wf(),
        ensures
            final(self).wf(),
            final(self).same_entities(old(self)),
            forall|d: DatatypeId| #[trigger] final(self).has_datatype(d) == old(self).has_datatype(d),
            forall|d: DatatypeId| #[trigger] final(self).name_of_type(d) == old(self).name_of_type(d),
            forall|d: DatatypeId, e: EntityId| #[trigger] final(self).component(d, e) ==
                (if d == datatype_id_of(name@) && e == entity { None } else { old(self).component(d, e) }),
            forall|e: EntityId| #[trigger] final(self).archetype(e) ==
                (if e == entity && old(self).component(datatype_id_of(name@), e) is Some {
                    old(self).archetype(e).remove(old(self).archetype(e).index_of(datatype_id_of(name@)))
                } else {
                    old(self).archetype(e)
                }),
    {
        let ghost pre = *self;
        let id = type_id(name);
        let ghost had = pre.component(id, entity) is Some;
        match self.data.remove(&id) {
            None => {},
            Some(mut inner) => {
                let gone = inner.remove(&entity);
                self.data.insert(id, inner);
                if gone.is_some() {
                    match lists_remove(&mut self.archetypes, entity) {
                        None => {},
                        Some(mut list) => {
                            let ghost l0 = list@;
                            let mut k: usize = 0;
                            while k < list.len() && list[k] != id
                                invariant
                                    k <= list@.len(),
                                    list@ == l0,
                                    forall|j: int| 0 <= j < k ==> list@[j] != id,
                                decreases list@.len() - k,
                            {
                                k = k + 1;
                            }
                            if k < list.len() {
                                list.remove(k);
                                proof {
                                    assert(l0.index_of(id) == k as int) by {
                                        assert(l0.contains(id));
                                        assert(l0.no_duplicates()) by {
                                            assert(pre.archetype(entity).no_duplicates());
                                        }
                                    }
                                }
                            }
                            lists_insert_many(&mut self.archetypes, entity, list);
                        },
                    }
                }
            },
        }
        proof {
            assert forall|d: DatatypeId, e: EntityId| #[trigger] self.component(d, e) ==
                (if d == id && e == entity { None } else { pre.component(d, e) }) by {
                if d != id {
                    assert(self.data@[d] == pre.data@[d]);
                }
            }
            assert forall|e: EntityId| #[trigger] self.archetype(e) ==
                (if e == entity && had { pre.archetype(e).remove(pre.archetype(e).index_of(id)) } else { pre.archetype(e) }) by {
                if e == entity && had {
                    assert(pre.archetype(entity).no_duplicates());
                    assert(pre.archetype(entity).contains(id) <==> pre.component(id, entity) is Some);
                    assert(pre.archetype(e).contains(id));
                }
            }
            assert forall|e: EntityId| #[trigger] self.archetype(e).no_duplicates()
                && forall|dt: DatatypeId| self.archetype(e).contains(dt) <==> (#[trigger] self.component(dt, e)) is Some by {
                assert(pre.archetype(e).no_duplicates());
                if e == entity && had {
                    let l0 = pre.archetype(e);
                    let j = l0.index_of(id);
                    assert(l0.contains(id));
                    assert(0 <= j < l0.len() && l0[j] == id);
                    let l1 = self.archetype(e);
                    assert(l1 == l0.remove(j));
                    assert forall|a: int| 0 <= a < l1.len() implies #[trigger] l1[a] == (if a < j { l0[a] } else { l0[a + 1] }) by {}
                    assert forall|a: int, b: int| 0 <= a < b < l1.len() implies l1[a] != l1[b] by {
                        let a2 = if a < j { a } else { a + 1 };
                        let b2 = if b < j { b } else { b + 1 };
                        assert(l1[a] == l0[a2] && l1[b] == l0[b2]);
                    }
                    assert forall|dt: DatatypeId| l1.contains(dt) <==> (#[trigger] self.component(dt, e)) is Some by {
                        assert(l0.contains(dt) <==> pre.component(dt, e) is Some);
                        if l1.contains(dt) {
                            let a = choose|a: int| 0 <= a < l1.len() && l1[a] == dt;
                            let a2 = if a < j { a } else { a + 1 };
                            assert(l0[a2] == dt);
                            assert(a2 != j);
                        }
                        if dt != id && l0.contains(dt) {
                            let a = choose|a: int| 0 <= a < l0.len() && l0[a] == dt;
                            assert(a != j);
                            let a1 = if a < j { a } else { a - 1 };
                            assert(l1[a1] == dt);
                        }
                    }
                } else {
                    assert forall|dt: DatatypeId| self.archetype(e).contains(dt) <==> (#[trigger] self.component(dt, e)) is Some by {
                        assert(pre.archetype(e).contains(dt) <==> pre.component(dt, e) is Some);
                        if e == entity && dt == id {
                            assert(!had);
                        }
                    }
                }
            }
            Self::lemma_same_store(pre, *self);
        }
    }

    /// The datatypes of the components `entity` carries, in the order they were attached.
    pub fn get_archetype(&self, entity: EntityId) -> (r: Vec<DatatypeId>)
        requires
            self.wf(),
        ensures
            r@ == self.archetype(entity),
    {
        match lists_get(&self.archetypes, entity) {
            Some(v) => v,
            None => Vec::new(),
        }
    }

    /// Every entity is exactly one of knot, arrow, mark and tether.
    pub proof fn lemma_one_kind(&self, id: int)
        ensures
            self.is_knot_spec(id) || self.is_arrow_spec(id) || self.is_mark_spec(id) || self.is_tether_spec(id),
            !(self.is_knot_spec(id) && self.is_arrow_spec(id)),
            !(self.is_knot_spec(id) && self.is_mark_spec(id)),
            !(self.is_knot_spec(id) && self.is_tether_spec(id)),
            !(self.is_arrow_spec(id) && self.is_mark_spec(id)),
            !(self.is_arrow_spec(id) && self.is_tether_spec(id)),
            !(self.is_mark_spec(id) && self.is_tether_spec(id)),
    {
    }

    /// A copy of the payload `entity` carries under the datatype id `dt`, if any.
    pub fn get_component_by_id(&self, entity: EntityId, dt: DatatypeId) -> (r: Option<Vec<u8>>)
        requires
            self.wf(),
        ensures
            r is Some <==> self.component(dt, entity) is Some,
            r matches Some(v) ==> self.component(dt, entity) == Some(v@),
    {
        match self.data.get(&dt) {
            Some(m) => match m.get(&entity) {
                Some(v) => Some(copy_bytes(v.as_slice())),
                None => None,
            },
            None => None,
        }
    }

    /// How many more entities can be created (see `room`).
    pub fn room_left(&self) -> (r: usize)
        requires
            self.wf(),
        ensures
            r == self.room(),
    {
        proof {
            lemma_bounded_len(self.freelist@, (self.identities@.len() - self.available) as nat);
        }
        self.freelist.len() + self.available + (usize::MAX - 1 - self.identities.len())
    }

    /// The number of slots in the dense arrays (see `cap`).
    pub fn capacity(&self) -> (r: usize)
        requires
            self.wf(),
        ensures
            r == self.cap(),
    {
        self.identities.len()
    }
}

} // verus!
