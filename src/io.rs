//! The byte format of a hoisted subgraph. Each entity hoisted under the root becomes a
//! record of little-endian `u64`s: id, source, target, number of components, then per
//! component the name's length and UTF-8 bytes, the datatype id, and the payload's length
//! and bytes.
use vstd::prelude::*;
use std::collections::HashMap;
use vstd::utf8::{encode_utf8, valid_utf8, decode_utf8, encode_utf8_decode_utf8};
use crate::store::{EntityId, DatatypeId, Weave, datatype_id_of};
use crate::traverse::{down, down_spec};
use crate::sorted::{strictly_sorted, absorb};
use crate::shape::{hoist, keeps_old};

verus! {

broadcast use vstd::std_specs::hash::group_hash_axioms;

/// The eight little-endian bytes of `v`.
pub open spec fn le8(v: u64) -> Seq<u8> {
    seq![v as u8, (v >> 8) as u8, (v >> 16) as u8, (v >> 24) as u8,
        (v >> 32) as u8, (v >> 40) as u8, (v >> 48) as u8, (v >> 56) as u8]
}

/// The `u64` whose little-endian bytes start at `i` in `b`.
pub open spec fn read_le8(b: Seq<u8>, i: int) -> u64 {
    (b[i] as u64) | ((b[i + 1] as u64) << 8) | ((b[i + 2] as u64) << 16) | ((b[i + 3] as u64) << 24)
        | ((b[i + 4] as u64) << 32) | ((b[i + 5] as u64) << 40) | ((b[i + 6] as u64) << 48) | ((b[i + 7] as u64) << 56)
}

fn push_u64(out: &mut Vec<u8>, v: u64)
    ensures
        final(out)@ == old(out)@ + le8(v),
{
    out.push(v as u8);
    out.push((v >> 8) as u8);
    out.push((v >> 16) as u8);
    out.push((v >> 24) as u8);
    out.push((v >> 32) as u8);
    out.push((v >> 40) as u8);
    out.push((v >> 48) as u8);
    out.push((v >> 56) as u8);
    assert(out@ =~= old(out)@ + le8(v));
}

fn read_u64(b: &[u8], i: usize) -> (r: u64)
    requires
        i + 8 <= b@.len(),
    ensures
        r == read_le8(b@, i as int),
{
    (b[i] as u64) | ((b[i + 1] as u64) << 8) | ((b[i + 2] as u64) << 16) | ((b[i + 3] as u64) << 24)
        | ((b[i + 4] as u64) << 32) | ((b[i + 5] as u64) << 40) | ((b[i + 6] as u64) << 48) | ((b[i + 7] as u64) << 56)
}

fn append_bytes(out: &mut Vec<u8>, b: &[u8])
    ensures
        final(out)@ == old(out)@ + b@,
{
    let mut i: usize = 0;
    while i < b.len()
        invariant
            i <= b@.len(),
            out@ == old(out)@ + b@.subrange(0, i as int),
        decreases b@.len() - i,
    {
        out.push(b[i]);
        i = i + 1;
        assert(out@ =~= old(out)@ + b@.subrange(0, i as int));
    }
    assert(b@.subrange(0, i as int) =~= b@);
}

/// The component part of `e`'s record, for the datatypes in `arch`: those with a
/// recorded name and a payload on `e`, in order.
pub open spec fn component_bytes(wv: &Weave, e: EntityId, arch: Seq<DatatypeId>) -> Seq<u8>
    decreases arch.len(),
{
    if arch.len() == 0 {
        Seq::empty()
    } else {
        let dt = arch.last();
        let rest = component_bytes(wv, e, arch.drop_last());
        match (wv.name_of_type(dt), wv.component(dt, e)) {
            (Some(n), Some(v)) => rest + le8(encode_utf8(n).len() as u64) + encode_utf8(n) + le8(dt)
                + le8(v.len() as u64) + v,
            _ => rest,
        }
    }
}

/// How many entries `component_bytes` writes.
pub open spec fn component_count(wv: &Weave, e: EntityId, arch: Seq<DatatypeId>) -> nat
    decreases arch.len(),
{
    if arch.len() == 0 {
        0
    } else {
        let dt = arch.last();
        let rest = component_count(wv, e, arch.drop_last());
        match (wv.name_of_type(dt), wv.component(dt, e)) {
            (Some(n), Some(v)) => rest + 1,
            _ => rest,
        }
    }
}

/// The record of the live `e`.
pub open spec fn record_bytes(wv: &Weave, e: EntityId) -> Seq<u8> {
    le8(e as u64) + le8(wv.src_of(e as int) as u64) + le8(wv.tgt_of(e as int) as u64)
        + le8(component_count(wv, e, wv.archetype(e)) as u64) + component_bytes(wv, e, wv.archetype(e))
}

/// The records of `es`, in order.
pub open spec fn records(wv: &Weave, es: Seq<EntityId>) -> Seq<u8>
    decreases es.len(),
{
    if es.len() == 0 {
        Seq::empty()
    } else {
        records(wv, es.drop_last()) + record_bytes(wv, es.last())
    }
}

fn serialize_entity(wv: &Weave, id: EntityId, memory: &mut Vec<u8>)
    requires
        wv.wf(),
        wv.is_live(id as int),
    ensures
        final(memory)@ == old(memory)@ + record_bytes(wv, id),
{
    let arch = wv.get_archetype(id);
    let mut body: Vec<u8> = Vec::new();
    let mut count: u64 = 0;
    let mut k: usize = 0;
    while k < arch.len()
        invariant
            wv.wf(),
            k <= arch@.len(),
            arch@ == wv.archetype(id),
            body@ == component_bytes(wv, id, arch@.subrange(0, k as int)),
            count == component_count(wv, id, arch@.subrange(0, k as int)),
            count <= k,
        decreases arch@.len() - k,
    {
        let dt = arch[k];
        proof {
            assert(arch@.subrange(0, k + 1).drop_last() =~= arch@.subrange(0, k as int));
        }
        match wv.get_type_name(dt) {
            None => {},
            Some(name) => {
                match wv.get_component_by_id(id, dt) {
                    None => {},
                    Some(val) => {
                        let nb = name.as_str().as_bytes();
                        push_u64(&mut body, nb.len() as u64);
                        append_bytes(&mut body, nb);
                        push_u64(&mut body, dt);
                        push_u64(&mut body, val.len() as u64);
                        append_bytes(&mut body, val.as_slice());
                        count = count + 1;
                    },
                }
            },
        }
        k = k + 1;
    }
    proof {
        assert(arch@.subrange(0, k as int) =~= arch@);
    }
    push_u64(memory, id as u64);
    push_u64(memory, wv.src(id) as u64);
    push_u64(memory, wv.tgt(id) as u64);
    push_u64(memory, count);
    append_bytes(memory, body.as_slice());
    assert(memory@ =~= old(memory)@ + record_bytes(wv, id));
}

/// The records of the distinct entities hoisted under `hoisted_env`, in increasing id
/// order.
pub fn serialize(wv: &Weave, hoisted_env: EntityId) -> (r: Vec<u8>)
    requires
        wv.wf(),
    ensures
        exists|order: Seq<EntityId>| strictly_sorted(order)
            && (forall|y: EntityId| #[trigger] order.contains(y) <==> down_spec(wv, hoisted_env as int, y as int))
            && r@ == records(wv, order),
{
    let raw = down(wv, hoisted_env);
    let mut env: Vec<EntityId> = Vec::new();
    absorb(&mut env, &raw);
    let mut memory: Vec<u8> = Vec::new();
    let mut k: usize = 0;
    while k < env.len()
        invariant
            wv.wf(),
            k <= env@.len(),
            forall|y: EntityId| #[trigger] env@.contains(y) ==> raw@.contains(y),
            forall|j: int| 0 <= j < raw@.len() ==> wv.is_live(#[trigger] raw@[j] as int),
            memory@ == records(wv, env@.subrange(0, k as int)),
        decreases env@.len() - k,
    {
        let e = env[k];
        proof {
            assert(env@.contains(e));
            let j = choose|j: int| 0 <= j < raw@.len() && raw@[j] == e;
            assert(env@.subrange(0, k + 1).drop_last() =~= env@.subrange(0, k as int));
        }
        serialize_entity(wv, e, &mut memory);
        k = k + 1;
    }
    proof {
        assert(env@.subrange(0, k as int) =~= env@);
    }
    memory
}

/// Why bytes could not be read back as a subgraph.
#[derive(Debug, Clone, Copy, PartialEq, Eq)]
pub enum DeserializeError {
    /// The bytes end inside a record.
    Truncated,
    /// A component name is not UTF-8.
    InvalidName,
    /// A component's datatype id is not the id this store has for its name.
    UnknownDatatype,
    /// The store has no ids left for the new entities.
    Full,
}

fn copy_range(b: &[u8], start: usize, len: usize) -> (r: Vec<u8>)
    requires
        start + len <= b@.len(),
    ensures
        r@ == b@.subrange(start as int, start + len),
{
    let mut r: Vec<u8> = Vec::new();
    let mut i: usize = 0;
    assert(b@.len() == b.len());
    while i < len
        invariant
            b@.len() <= usize::MAX,
            start + len <= b@.len(),
            i <= len,
            r@ == b@.subrange(start as int, start + i),
        decreases len - i,
    {
        r.push(b[start + i]);
        i = i + 1;
        assert(r@ =~= b@.subrange(start as int, start + i));
    }
    r
}

/// Relies on `String::from_utf8`: the bytes as a string, exactly when they are UTF-8.
#[verifier::external_body]
fn utf8_string(b: &[u8]) -> (r: Option<String>)
    ensures
        r is Some <==> valid_utf8(b@),
        r matches Some(s) ==> encode_utf8(s@) == b@,
{
    String::from_utf8(b.to_vec()).ok()
}

/// Every id that `mapping` gives is live in `wv` and listed in `created`.
pub open spec fn mapping_ok(wv: &Weave, mapping: Map<EntityId, EntityId>, created: Seq<EntityId>) -> bool {
    &&& forall|k: EntityId| #[trigger] mapping.contains_key(k) ==> wv.is_live(mapping[k] as int)
    &&& forall|j: int| 0 <= j < created.len() ==> wv.is_live(#[trigger] created[j] as int)
}

fn fresh_for(wv: &mut Weave, x: EntityId, mapping: &mut HashMap<EntityId, EntityId>, created: &mut Vec<EntityId>)
    -> (r: Result<(), DeserializeError>)
    requires
        old(wv).wf(),
        mapping_ok(old(wv), old(mapping)@, old(created)@),
    ensures
        final(wv).wf(),
        keeps_old(final(wv), old(wv)),
        mapping_ok(final(wv), final(mapping)@, final(created)@),
        r is Ok ==> final(mapping)@.contains_key(x),
        r matches Err(e) ==> e is Full,
        old(wv).room() >= 1 ==> r is Ok,
        final(wv).room() + 1 >= old(wv).room(),
        final(wv).allocated_from(old(wv)),
        forall|k: EntityId| #[trigger] old(mapping)@.contains_key(k) ==>
            final(mapping)@.contains_key(k) && final(mapping)@[k] == old(mapping)@[k],
        forall|d: u64| #[trigger] final(wv).has_datatype(d) == old(wv).has_datatype(d),
{
    proof {
        assert forall|i: int| old(wv).is_live(i) implies #[trigger] wv.agrees_at(old(wv), i) by {}
    }
    proof {
        wv.lemma_allocated_refl();
    }
    if mapping.contains_key(&x) {
        return Ok(());
    }
    if wv.room_left() < 1 {
        return Err(DeserializeError::Full);
    }
    let ghost w0 = *wv;
    let k = wv.new_knot();
    proof {
        Weave::lemma_component_of_same(&w0, wv);
    }
    mapping.insert(x, k);
    created.push(k);
    proof {
        assert forall|i: int| old(wv).is_live(i) implies #[trigger] wv.agrees_at(old(wv), i) by {
            assert(wv.agrees_at(&w0, i) || i == k);
        }
        assert forall|y: EntityId| #[trigger] mapping@.contains_key(y) implies wv.is_live(mapping@[y] as int) by {
            if y != x {
                assert(old(mapping)@.contains_key(y));
                assert(wv.agrees_at(&w0, old(mapping)@[y] as int));
            }
        }
        assert forall|j: int| 0 <= j < created@.len() implies wv.is_live(#[trigger] created@[j] as int) by {
            if j < created@.len() - 1 {
                assert(created@[j] == old(created)@[j]);
                assert(wv.agrees_at(&w0, created@[j] as int));
            }
        }
    }
    Ok(())
}

/// The datatype id that a store with the datatypes of `wv` gives the name whose UTF-8
/// bytes are `name`: its id if defined, else `NIL`.
pub open spec fn lookup_dt(wv: &Weave, name: Seq<u8>) -> u64 {
    let id = datatype_id_of(decode_utf8(name));
    if wv.has_datatype(id) { id } else { usize::MAX as u64 }
}

/// Where `n` component entries starting at `i` in `b` end, if they are complete, their
/// names are UTF-8, and their datatype ids are those `wv` gives the names.
pub open spec fn components_end(wv: &Weave, b: Seq<u8>, i: int, n: nat) -> Option<int>
    decreases n,
{
    if n == 0 {
        Some(i)
    } else {
        match components_end(wv, b, i, (n - 1) as nat) {
            None => None,
            Some(j) => {
                if b.len() - j < 8 {
                    None
                } else {
                    let nl = (read_le8(b, j) as usize) as int;
                    let j1 = j + 8;
                    if b.len() - j1 < nl {
                        None
                    } else {
                        let j2 = j1 + nl;
                        if b.len() - j2 < 16 {
                            None
                        } else {
                            let vl = (read_le8(b, j2 + 8) as usize) as int;
                            let j3 = j2 + 16;
                            if b.len() - j3 < vl {
                                None
                            } else if !valid_utf8(b.subrange(j1, j2)) || lookup_dt(wv, b.subrange(j1, j2)) != read_le8(b, j2) {
                                None
                            } else {
                                Some(j3 + vl)
                            }
                        }
                    }
                }
            }
        }
    }
}

/// Where the `k`-th component entry after `i` starts, when the earlier ones are well formed.
pub open spec fn entry_start(wv: &Weave, b: Seq<u8>, i: int, k: int) -> int {
    components_end(wv, b, i, k as nat)->Some_0
}

/// The name bytes of the component entry starting at `j` in `b`.
pub open spec fn entry_name(b: Seq<u8>, j: int) -> Seq<u8> {
    b.subrange(j + 8, j + 8 + (read_le8(b, j) as usize) as int)
}

/// Where the record starting at `i` in `b` ends, if it is complete and well formed.
pub open spec fn record_end(wv: &Weave, b: Seq<u8>, i: int) -> Option<int> {
    if b.len() - i < 32 {
        None
    } else {
        components_end(wv, b, i + 32, read_le8(b, i + 24) as nat)
    }
}

/// The records from `i` on in `b` are all complete and well formed, up to the end.
pub open spec fn stream_ok(wv: &Weave, b: Seq<u8>, i: int) -> bool
    decreases b.len() - i,
{
    if i >= b.len() {
        true
    } else {
        match record_end(wv, b, i) {
            Some(j) => if j > i { stream_ok(wv, b, j) } else { false },
            None => false,
        }
    }
}

proof fn lemma_components_same(w1: &Weave, w2: &Weave, b: Seq<u8>, i: int, n: nat)
    requires
        forall|d: u64| #[trigger] w1.has_datatype(d) == w2.has_datatype(d),
    ensures
        components_end(w1, b, i, n) == components_end(w2, b, i, n),
    decreases n,
{
    if n > 0 {
        lemma_components_same(w1, w2, b, i, (n - 1) as nat);
    }
}

proof fn lemma_components_none(wv: &Weave, b: Seq<u8>, i: int, n: nat, m: nat)
    requires
        n <= m,
        components_end(wv, b, i, n) is None,
    ensures
        components_end(wv, b, i, m) is None,
    decreases m - n,
{
    if n < m {
        lemma_components_none(wv, b, i, n, (m - 1) as nat);
    }
}

fn deserialize_entity(wv: &mut Weave, memory: &[u8], index: &mut usize,
    mapping: &mut HashMap<EntityId, EntityId>, created: &mut Vec<EntityId>) -> (r: Result<(), DeserializeError>)
    requires
        old(wv).wf(),
        mapping_ok(old(wv), old(mapping)@, old(created)@),
        *old(index) <= memory@.len(),
    ensures
        final(wv).wf(),
        mapping_ok(final(wv), final(mapping)@, final(created)@),
        *final(index) <= memory@.len(),
        forall|d: u64| #[trigger] final(wv).has_datatype(d) == old(wv).has_datatype(d),
        forall|k: EntityId| #[trigger] old(mapping)@.contains_key(k) ==>
            final(mapping)@.contains_key(k) && final(mapping)@[k] == old(mapping)@[k],
        r is Ok ==> *final(index) > *old(index),
        r is Ok ==> record_end(old(wv), memory@, *old(index) as int) == Some(*final(index) as int),
        r matches Err(e) ==> (e is Full && old(wv).room() < 3) || record_end(old(wv), memory@, *old(index) as int) is None,
        final(wv).allocated_from(old(wv)),
        final(wv).room() + 3 >= old(wv).room(),
        r is Ok ==> *final(index) >= *old(index) + 32,
        r is Ok ==> forall|k: int| 0 <= k < read_le8(memory@, *old(index) as int + 24) ==>
            final(wv).component(datatype_id_of(decode_utf8(entry_name(memory@,
                #[trigger] entry_start(old(wv), memory@, *old(index) as int + 32, k)))),
                final(mapping)@[read_le8(memory@, *old(index) as int) as EntityId]) is Some,
        r is Ok ==> {
            let b = memory@;
            let i0 = *old(index) as int;
            let m = final(mapping)@;
            let id = read_le8(b, i0) as EntityId;
            let s = read_le8(b, i0 + 8) as EntityId;
            let t = read_le8(b, i0 + 16) as EntityId;
            &&& m.contains_key(id) && m.contains_key(s) && m.contains_key(t)
            &&& final(wv).src_of(m[id] as int) == m[s]
            &&& final(wv).tgt_of(m[id] as int) == m[t]
        },
{
    let ghost o = *old(wv);
    let ghost i0 = *index as int;
    proof {
        wv.lemma_allocated_refl();
    }
    if memory.len() - *index < 32 {
        return Err(DeserializeError::Truncated);
    }
    let id = read_u64(memory, *index) as EntityId;
    let src = read_u64(memory, *index + 8) as EntityId;
    let tgt = read_u64(memory, *index + 16) as EntityId;
    let count = read_u64(memory, *index + 24);
    *index = *index + 32;
    let ghost m0 = mapping@;
    let ghost wa = *wv;
    assert(wa == o);
    let f1 = fresh_for(wv, id, mapping, created);
    let ghost m1 = mapping@;
    let ghost wb = *wv;
    if f1.is_err() {
        return Err(DeserializeError::Full);
    }
    let f2 = fresh_for(wv, src, mapping, created);
    let ghost m2 = mapping@;
    let ghost wc = *wv;
    proof {
        Weave::lemma_allocated_trans(&wa, &wb, &wc);
    }
    if f2.is_err() {
        return Err(DeserializeError::Full);
    }
    let ghost wd0 = *wv;
    let f3 = fresh_for(wv, tgt, mapping, created);
    proof {
        Weave::lemma_allocated_trans(&wa, &wd0, wv);
    }
    if f3.is_err() {
        return Err(DeserializeError::Full);
    }
    let eid = *mapping.get(&id).unwrap();
    let s = *mapping.get(&src).unwrap();
    let t = *mapping.get(&tgt).unwrap();
    let ghost before_ends = *wv;
    wv.change_ends(eid, s, t);
    let ghost m3 = mapping@;
    proof {
        Weave::lemma_component_of_same(&before_ends, wv);
        assert forall|d: u64| #[trigger] wv.has_datatype(d) == o.has_datatype(d) by {
            assert(wb.has_datatype(d) == wa.has_datatype(d));
            assert(wc.has_datatype(d) == wb.has_datatype(d));
            assert(before_ends.has_datatype(d) == wc.has_datatype(d));
        }
        assert forall|y: EntityId| #[trigger] mapping@.contains_key(y) implies wv.is_live(mapping@[y] as int) by {
            assert(wv.agrees_at(&before_ends, mapping@[y] as int) || mapping@[y] == eid);
        }
        assert forall|j: int| 0 <= j < created@.len() implies wv.is_live(#[trigger] created@[j] as int) by {
            assert(wv.agrees_at(&before_ends, created@[j] as int) || created@[j] == eid);
        }
        Weave::lemma_component_of_same(&before_ends, wv);
        assert forall|k: EntityId| #[trigger] m0.contains_key(k) implies m3.contains_key(k) && m3[k] == m0[k] by {
            assert(m1.contains_key(k) && m1[k] == m0[k]);
            assert(m2.contains_key(k) && m2[k] == m1[k]);
        }
        assert(m3.contains_key(id) && m3.contains_key(src) && m3.contains_key(tgt)) by {
            assert(m1.contains_key(id));
            assert(m2.contains_key(id) && m2.contains_key(src));
        }
    }
    let mut c: u64 = 0;
    while c < count
        invariant
            wv.wf(),
            *index <= memory@.len(),
            *index > i0,
            *index >= i0 + 32,
            i0 + 32 <= memory@.len(),
            count == read_le8(memory@, i0 + 24),
            mapping_ok(wv, mapping@, created@),
            mapping@ == m3,
            o == *old(wv),
            i0 == *old(index) as int,
            wv.allocated_from(&o),
            wv.room() + 3 >= o.room(),
            forall|k: EntityId| #[trigger] m0.contains_key(k) ==> m3.contains_key(k) && m3[k] == m0[k],
            m0 == old(mapping)@,
            wv.is_live(eid as int),
            eid == m3[id] && s == m3[src] && t == m3[tgt],
            wv.src_of(eid as int) == s && wv.tgt_of(eid as int) == t,
            forall|d: u64| #[trigger] wv.has_datatype(d) == o.has_datatype(d),
            c <= count,
            components_end(&o, memory@, i0 + 32, c as nat) == Some(*index as int),
            forall|kk: int| 0 <= kk < c ==>
                wv.component(datatype_id_of(decode_utf8(entry_name(memory@,
                    #[trigger] entry_start(&o, memory@, i0 + 32, kk)))), eid) is Some,
        decreases count - c,
    {
        let ghost j = *index as int;
        proof {
            assert(components_end(&o, memory@, i0 + 32, (c + 1) as nat) == {
                let b = memory@;
                if b.len() - j < 8 { None::<int> } else {
                    let nl = (read_le8(b, j) as usize) as int;
                    let j1 = j + 8;
                    if b.len() - j1 < nl { None::<int> } else {
                        let j2 = j1 + nl;
                        if b.len() - j2 < 16 { None::<int> } else {
                            let vl = (read_le8(b, j2 + 8) as usize) as int;
                            let j3 = j2 + 16;
                            if b.len() - j3 < vl { None::<int> }
                            else if !valid_utf8(b.subrange(j1, j2)) || lookup_dt(&o, b.subrange(j1, j2)) != read_le8(b, j2) { None::<int> }
                            else { Some(j3 + vl) }
                        }
                    }
                }
            });
            if c + 1 < count {
            }
        }
        if memory.len() - *index < 8 {
            proof { lemma_components_none(&o, memory@, i0 + 32, (c + 1) as nat, count as nat); }
            return Err(DeserializeError::Truncated);
        }
        let name_len = read_u64(memory, *index) as usize;
        *index = *index + 8;
        if memory.len() - *index < name_len {
            proof { lemma_components_none(&o, memory@, i0 + 32, (c + 1) as nat, count as nat); }
            return Err(DeserializeError::Truncated);
        }
        let ghost j1 = *index as int;
        let name_bytes = copy_range(memory, *index, name_len);
        *index = *index + name_len;
        if memory.len() - *index < 16 {
            proof { lemma_components_none(&o, memory@, i0 + 32, (c + 1) as nat, count as nat); }
            return Err(DeserializeError::Truncated);
        }
        let dt = read_u64(memory, *index);
        let val_len = read_u64(memory, *index + 8) as usize;
        *index = *index + 16;
        if memory.len() - *index < val_len {
            proof { lemma_components_none(&o, memory@, i0 + 32, (c + 1) as nat, count as nat); }
            return Err(DeserializeError::Truncated);
        }
        let val = copy_range(memory, *index, val_len);
        *index = *index + val_len;
        let name = match utf8_string(name_bytes.as_slice()) {
            Some(n) => n,
            None => {
                proof { lemma_components_none(&o, memory@, i0 + 32, (c + 1) as nat, count as nat); }
                return Err(DeserializeError::InvalidName);
            },
        };
        proof {
            encode_utf8_decode_utf8(name@);
            assert(decode_utf8(name_bytes@) == name@);
        }
        if wv.get_datatype_id(name.as_str()) != dt {
            proof { lemma_components_none(&o, memory@, i0 + 32, (c + 1) as nat, count as nat); }
            return Err(DeserializeError::UnknownDatatype);
        }
        let ghost before = *wv;
        wv.add_component_raw(eid, name.as_str(), val.as_slice());
        proof {
            assert(name_bytes@ == entry_name(memory@, j));
            assert(entry_start(&o, memory@, i0 + 32, c as int) == j);
            assert forall|kk: int| 0 <= kk < c + 1 implies
                wv.component(datatype_id_of(decode_utf8(entry_name(memory@,
                    #[trigger] entry_start(&o, memory@, i0 + 32, kk)))), eid) is Some by {
                if kk < c {
                    let d = datatype_id_of(decode_utf8(entry_name(memory@, entry_start(&o, memory@, i0 + 32, kk))));
                    assert(before.component(d, eid) is Some);
                } else {
                    assert(kk == c);
                }
            }
            assert(wv.agrees_at(&before, eid as int));
            assert forall|y: EntityId| #[trigger] mapping@.contains_key(y) implies wv.is_live(mapping@[y] as int) by {
                assert(wv.agrees_at(&before, mapping@[y] as int));
            }
            assert forall|jj: int| 0 <= jj < created@.len() implies wv.is_live(#[trigger] created@[jj] as int) by {
                assert(wv.agrees_at(&before, created@[jj] as int));
            }
        }
        c = c + 1;
    }
    Ok(())
}

/// Reads the records in `serialized`, creating a fresh knot for each id they mention and
/// giving it the recorded endpoints and components, then hoists the new knots and arrows
/// under a new root, which it returns. Entities created before an error stay.
pub fn deserialize(wv: &mut Weave, serialized: &[u8]) -> (r: Result<EntityId, DeserializeError>)
    requires
        old(wv).wf(),
    ensures
        final(wv).wf(),
        r matches Ok(root) ==> final(wv).is_live(root as int),
        r matches Err(e) ==> e is Full || !stream_ok(old(wv), serialized@, 0),
        stream_ok(old(wv), serialized@, 0) && old(wv).room() >= 6 * old(wv).cap() + 7 * serialized@.len() + 7
            ==> r is Ok,
{
    proof {
        old(wv).lemma_allocated_refl();
    }
    let mut mapping: HashMap<EntityId, EntityId> = HashMap::new();
    let mut created: Vec<EntityId> = Vec::new();
    let mut i: usize = 0;
    while i < serialized.len()
        invariant
            wv.wf(),
            i <= serialized@.len(),
            mapping_ok(wv, mapping@, created@),
            forall|d: u64| #[trigger] wv.has_datatype(d) == old(wv).has_datatype(d),
            stream_ok(old(wv), serialized@, 0) ==> stream_ok(old(wv), serialized@, i as int),
            wv.allocated_from(old(wv)),
            wv.room() + i >= old(wv).room(),
        decreases serialized@.len() - i,
    {
        let ghost before = *wv;
        let ghost i_before = i as int;
        let step = deserialize_entity(wv, serialized, &mut i, &mut mapping, &mut created);
        proof {
            if serialized@.len() - i_before >= 32 {
                lemma_components_same(&before, old(wv), serialized@, i_before + 32, read_le8(serialized@, i_before + 24) as nat);
            }
            assert(record_end(&before, serialized@, i_before) == record_end(old(wv), serialized@, i_before));
        }
        proof {
            Weave::lemma_allocated_trans(old(wv), &before, wv);
        }
        match step {
            Ok(()) => {},
            Err(e) => { return Err(e); },
        }
    }
    let ghost w_parsed = *wv;
    let mut primaries: Vec<EntityId> = Vec::new();
    let mut k: usize = 0;
    while k < created.len()
        invariant
            wv.wf(),
            *wv == w_parsed,
            k <= created@.len(),
            mapping_ok(wv, mapping@, created@),
        decreases created@.len() - k,
    {
        let e = created[k];
        if wv.is_knot(e) || wv.is_arrow(e) {
            primaries.push(e);
        }
        k = k + 1;
    }
    if wv.room_left() < 1 {
        return Err(DeserializeError::Full);
    }
    let root = wv.new_knot();
    proof {
        Weave::lemma_allocated_trans(old(wv), &w_parsed, wv);
        let n = serialized@.len() as int;
        let c0 = old(wv).cap() as int;
        if stream_ok(old(wv), serialized@, 0) && old(wv).room() >= 6 * old(wv).cap() + 7 * serialized@.len() + 7 {
            let rf = wv.room() as int;
            let cf = wv.cap() as int;
            assert(old(wv).watermark() <= old(wv).cap());
            assert(wv.watermark() <= c0 + n + 1);
            assert(cf <= 2 * c0 + 2 * n + 2);
            assert(rf >= 3 * cf);
            assert(rf / 3 >= cf) by (nonlinear_arith)
                requires
                    rf >= 3 * cf,
                    cf >= 0,
            ;
        }
    }
    if wv.room_left() / 3 < wv.capacity() {
        return Err(DeserializeError::Full);
    }
    let ghost w0 = *wv;
    hoist(wv, root, primaries.as_slice());
    proof {
        assert(wv.agrees_at(&w0, root as int));
    }
    Ok(root)
}

} // verus!
