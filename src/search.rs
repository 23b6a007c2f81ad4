//! Subgraph matching: finds where the entities hoisted under a pattern root occur among
//! the entities hoisted under a target root, by backtracking over pruned candidates.
use vstd::prelude::*;
use std::collections::HashMap;
use multimap::MultiMap;
use crate::store::{EntityId, DatatypeId, Weave, DataField, datatype_id_of};
use crate::traverse::{down, down_spec, marks, Pick, picks, degree, count_picks};
use crate::shape::among;
use crate::lists::{entity_lists, entities_at, entity_lists_new, entity_lists_insert, entity_lists_get};
use crate::payload::{payload_string, payload_string_spec, string_payload, string_payload_spec};
use crate::shape::annotate;
use crate::sorted::{strictly_sorted, absorb, lemma_insert_fresh};
use crate::shape::keeps_old;

verus! {

broadcast use vstd::std_specs::hash::group_hash_axioms;

/// A change to a store, as a rewrite would record it.
pub enum Diff {
    Spawn(EntityId, (EntityId, EntityId)),
    ChangeSource(EntityId, EntityId),
    ChangeTarget(EntityId, EntityId),
    Destroy(EntityId),
    ChangeData(EntityId, String, Vec<DataField>),
}

/// The pattern entities in search order, and the target entities each may stand for.
pub struct SearchSpace {
    pub entities: Vec<EntityId>,
    pub candidates: MultiMap<EntityId, EntityId>,
}

/// Each bound entity whose source or target is bound has its endpoints mapped onto the
/// endpoints of its image.
pub open spec fn edges_respected(wv: &Weave, m: Map<EntityId, EntityId>) -> bool {
    forall|d: EntityId| #[trigger] m.contains_key(d)
        && (m.contains_key(wv.src_of(d as int)) || m.contains_key(wv.tgt_of(d as int))) ==> {
        &&& m.contains_key(wv.src_of(d as int))
        &&& m.contains_key(wv.tgt_of(d as int))
        &&& m[wv.src_of(d as int)] == wv.src_of(m[d] as int)
        &&& m[wv.tgt_of(d as int)] == wv.tgt_of(m[d] as int)
    }
}

/// No two keys share an image.
pub open spec fn injective(m: Map<EntityId, EntityId>) -> bool {
    forall|a: EntityId, b: EntityId| #[trigger] m.contains_key(a) && #[trigger] m.contains_key(b) && a != b ==> m[a] != m[b]
}

/// Keys and images are live.
pub open spec fn all_live(wv: &Weave, m: Map<EntityId, EntityId>) -> bool {
    forall|a: EntityId| #[trigger] m.contains_key(a) ==> wv.is_live(a as int) && wv.is_live(m[a] as int)
}

/// `m` is a match of the entities hoisted under `p` among those hoisted under `t`: it
/// binds each of the former, injectively, to one of the latter, respecting edges.
pub open spec fn is_match(wv: &Weave, p: EntityId, t: EntityId, m: Map<EntityId, EntityId>) -> bool {
    &&& forall|y: EntityId| #[trigger] m.contains_key(y) <==> down_spec(wv, p as int, y as int)
    &&& forall|y: EntityId| #[trigger] m.contains_key(y) ==> down_spec(wv, t as int, m[y] as int)
    &&& injective(m)
    &&& all_live(wv, m)
    &&& edges_respected(wv, m)
}

impl SearchSpace {
    /// Entities are the distinct entities hoisted under `p`, and candidates are live
    /// entities hoisted under `t`.
    pub open spec fn valid(&self, wv: &Weave, p: EntityId, t: EntityId) -> bool {
        &&& self.entities@.no_duplicates()
        &&& forall|y: EntityId| #[trigger] self.entities@.contains(y) <==> down_spec(wv, p as int, y as int)
        &&& forall|k: int| 0 <= k < self.entities@.len() ==> wv.is_live(#[trigger] self.entities@[k] as int)
        &&& forall|e: EntityId, k: int| 0 <= k < entities_at(self.candidates, e).len() ==>
            wv.is_live(#[trigger] entities_at(self.candidates, e)[k] as int)
            && down_spec(wv, t as int, entities_at(self.candidates, e)[k] as int)
        &&& forall|e: EntityId| (#[trigger] entities_at(self.candidates, e)).no_duplicates()
    }
}

/// Whether every bound entity that has a bound endpoint maps its endpoints onto its
/// image's endpoints.
pub fn check_solution(wv: &Weave, keys: &Vec<EntityId>, solution: &HashMap<EntityId, EntityId>) -> (r: bool)
    requires
        wv.wf(),
        forall|y: EntityId| #[trigger] keys@.contains(y) <==> solution@.contains_key(y),
        all_live(wv, solution@),
    ensures
        r == edges_respected(wv, solution@),
{
    let ghost m = solution@;
    let mut k: usize = 0;
    while k < keys.len()
        invariant
            wv.wf(),
            k <= keys@.len(),
            m == solution@,
            forall|y: EntityId| #[trigger] keys@.contains(y) <==> m.contains_key(y),
            all_live(wv, m),
            forall|j: int| 0 <= j < k ==> {
                let d = #[trigger] keys@[j];
                (m.contains_key(wv.src_of(d as int)) || m.contains_key(wv.tgt_of(d as int))) ==> {
                    &&& m.contains_key(wv.src_of(d as int))
                    &&& m.contains_key(wv.tgt_of(d as int))
                    &&& m[wv.src_of(d as int)] == wv.src_of(m[d] as int)
                    &&& m[wv.tgt_of(d as int)] == wv.tgt_of(m[d] as int)
                }
            },
        decreases keys@.len() - k,
    {
        let d = keys[k];
        assert(keys@.contains(d));
        let s = wv.src(d);
        let t = wv.tgt(d);
        let has_s = solution.contains_key(&s);
        let has_t = solution.contains_key(&t);
        if has_s || has_t {
            if !(has_s && has_t) {
                proof {
                    assert(m.contains_key(d));
                }
                return false;
            }
            let md = *solution.get(&d).unwrap();
            let ms = *solution.get(&s).unwrap();
            let mt = *solution.get(&t).unwrap();
            if ms != wv.src(md) || mt != wv.tgt(md) {
                proof {
                    assert(m.contains_key(d));
                }
                return false;
            }
        }
        k = k + 1;
    }
    proof {
        assert forall|d: EntityId| #[trigger] m.contains_key(d)
            && (m.contains_key(wv.src_of(d as int)) || m.contains_key(wv.tgt_of(d as int))) implies {
            &&& m.contains_key(wv.src_of(d as int))
            &&& m.contains_key(wv.tgt_of(d as int))
            &&& m[wv.src_of(d as int)] == wv.src_of(m[d] as int)
            &&& m[wv.tgt_of(d as int)] == wv.tgt_of(m[d] as int)
        } by {
            assert(keys@.contains(d));
            let j = choose|j: int| 0 <= j < keys@.len() && keys@[j] == d;
        }
    }
    true
}

/// `collected` binds the first `index` search entities, to the values in `used`, in order.
pub open spec fn partial_ok(wv: &Weave, ss: &SearchSpace, t: EntityId, index: int,
    used: Seq<EntityId>, collected: Map<EntityId, EntityId>) -> bool {
    &&& used.len() == index
    &&& used.no_duplicates()
    &&& forall|y: EntityId| #[trigger] collected.contains_key(y) <==> (exists|j: int| 0 <= j < index && ss.entities@[j] == y)
    &&& forall|j: int| 0 <= j < index ==> collected[#[trigger] ss.entities@[j]] == used[j]
    &&& forall|j: int| 0 <= j < index ==> wv.is_live(#[trigger] used[j] as int) && down_spec(wv, t as int, used[j] as int)
    &&& forall|j: int| 0 <= j < index ==> entities_at(ss.candidates, ss.entities@[j]).contains(#[trigger] used[j])
}

/// `m` binds each search entity to one of its candidates, injectively, respecting edges.
pub open spec fn complete_for(wv: &Weave, ss: &SearchSpace, m: Map<EntityId, EntityId>) -> bool {
    &&& forall|y: EntityId| #[trigger] m.contains_key(y) <==> ss.entities@.contains(y)
    &&& forall|j: int| 0 <= j < ss.entities@.len() ==>
        entities_at(ss.candidates, #[trigger] ss.entities@[j]).contains(m[ss.entities@[j]])
    &&& injective(m)
    &&& edges_respected(wv, m)
}

/// `m` agrees with `part` wherever `part` is defined.
pub open spec fn extends(m: Map<EntityId, EntityId>, part: Map<EntityId, EntityId>) -> bool {
    forall|k: EntityId| #[trigger] part.contains_key(k) ==> m.contains_key(k) && m[k] == part[k]
}

/// `m` is among the elements of `ret` from position `from` on.
pub open spec fn listed(ret: Seq<HashMap<EntityId, EntityId>>, from: int, m: Map<EntityId, EntityId>) -> bool {
    exists|j: int| from <= j < ret.len() && (#[trigger] ret[j])@ == m
}

/// The elements of `ret` from `from` on extend `col` and are pairwise distinct.
pub open spec fn fresh_all(ret: Seq<HashMap<EntityId, EntityId>>, from: int, col: Map<EntityId, EntityId>) -> bool {
    &&& forall|j: int| from <= j < ret.len() ==> extends((#[trigger] ret[j])@, col)
    &&& forall|a: int, b: int| from <= a < b < ret.len() ==> (#[trigger] ret[a])@ != (#[trigger] ret[b])@
}

/// As `fresh_all`, and each of those elements binds `e` to one of the first `n` of `vals`.
pub open spec fn fresh_part(ret: Seq<HashMap<EntityId, EntityId>>, from: int, col: Map<EntityId, EntityId>,
    e: EntityId, vals: Seq<EntityId>, n: int) -> bool {
    &&& fresh_all(ret, from, col)
    &&& forall|j: int| from <= j < ret.len() ==> (#[trigger] ret[j])@.contains_key(e)
        && exists|k: int| 0 <= k < n && vals[k] == ret[j]@[e]
}

proof fn lemma_fresh_part_step(ret1: Seq<HashMap<EntityId, EntityId>>, ret2: Seq<HashMap<EntityId, EntityId>>,
    from: int, col0: Map<EntityId, EntityId>, e: EntityId, vals: Seq<EntityId>, i: int)
    requires
        0 <= from <= ret1.len() <= ret2.len(),
        forall|j: int| 0 <= j < ret1.len() ==> #[trigger] ret2[j] == ret1[j],
        fresh_part(ret1, from, col0, e, vals, i),
        vals.no_duplicates(),
        0 <= i < vals.len(),
        !col0.contains_key(e),
        fresh_all(ret2, ret1.len() as int, col0.insert(e, vals[i])),
    ensures
        fresh_part(ret2, from, col0, e, vals, i + 1),
{
    let col1 = col0.insert(e, vals[i]);
    assert forall|j: int| from <= j < ret2.len() implies extends((#[trigger] ret2[j])@, col0)
        && ret2[j]@.contains_key(e) && exists|k: int| 0 <= k < i + 1 && vals[k] == ret2[j]@[e] by {
        if j < ret1.len() {
            assert(ret2[j] == ret1[j]);
            assert(extends(ret1[j]@, col0));
            let k = choose|k: int| 0 <= k < i && vals[k] == ret1[j]@[e];
        } else {
            assert(extends(ret2[j]@, col1));
            assert(col1.contains_key(e));
            assert forall|k: EntityId| #[trigger] col0.contains_key(k) implies ret2[j]@.contains_key(k) && ret2[j]@[k] == col0[k] by {
                assert(col1.contains_key(k));
            }
            assert(vals[i] == ret2[j]@[e]);
        }
    }
    assert forall|a: int, b: int| from <= a < b < ret2.len() implies (#[trigger] ret2[a])@ != (#[trigger] ret2[b])@ by {
        if b < ret1.len() {
            assert(ret2[a] == ret1[a] && ret2[b] == ret1[b]);
            assert(ret1[a]@ != ret1[b]@);
        } else if a < ret1.len() {
            assert(ret2[a] == ret1[a]);
            let k = choose|k: int| 0 <= k < i && vals[k] == ret1[a]@[e];
            assert(extends(ret2[b]@, col1));
            assert(col1.contains_key(e));
            assert(ret2[b]@[e] == vals[i]);
            assert(vals[k] != vals[i]);
        }
    }
}

/// Binds the search entities from `index` on, in every way the candidates allow, and
/// pushes each complete binding that respects edges onto `ret`. With `first_only` it stops
/// at the first one and says so.
fn extend(wv: &Weave, ss: &SearchSpace, p: EntityId, t: EntityId, index: usize,
    used: &mut Vec<EntityId>, collected: &mut HashMap<EntityId, EntityId>,
    ret: &mut Vec<HashMap<EntityId, EntityId>>, first_only: bool) -> (stop: bool)
    requires
        wv.wf(),
        ss.valid(wv, p, t),
        index < ss.entities@.len(),
        partial_ok(wv, ss, t, index as int, old(used)@, old(collected)@),
        forall|j: int| 0 <= j < old(ret)@.len() ==> is_match(wv, p, t, (#[trigger] old(ret)@[j])@),
        forall|j: int| 0 <= j < old(ret)@.len() ==> complete_for(wv, ss, (#[trigger] old(ret)@[j])@),
    ensures
        forall|j: int| 0 <= j < final(ret)@.len() ==> complete_for(wv, ss, (#[trigger] final(ret)@[j])@),
        final(used)@ == old(used)@,
        final(collected)@ == old(collected)@,
        final(ret)@.len() >= old(ret)@.len(),
        forall|j: int| 0 <= j < final(ret)@.len() ==> is_match(wv, p, t, (#[trigger] final(ret)@[j])@),
        stop ==> final(ret)@.len() > old(ret)@.len(),
        stop ==> first_only,
        fresh_all(final(ret)@, old(ret)@.len() as int, old(collected)@),
        forall|j: int| 0 <= j < old(ret)@.len() ==> #[trigger] final(ret)@[j] == old(ret)@[j],
        !stop ==> forall|m: Map<EntityId, EntityId>| complete_for(wv, ss, m) && #[trigger] extends(m, old(collected)@)
            ==> listed(final(ret)@, old(ret)@.len() as int, m),
    decreases ss.entities@.len() - index,
{
    let e = ss.entities[index];
    let cands = match entity_lists_get(&ss.candidates, e) {
        Some(v) => v,
        None => {
            proof {
                assert forall|m: Map<EntityId, EntityId>| complete_for(wv, ss, m) && #[trigger] extends(m, old(collected)@)
                    implies listed(ret@, old(ret)@.len() as int, m) by {
                    assert(entities_at(ss.candidates, ss.entities@[index as int]).contains(m[ss.entities@[index as int]]));
                }
            }
            return false;
        },
    };
    proof {
        assert(cands@ == entities_at(ss.candidates, e));
    }
    let ghost used0 = used@;
    let ghost col0 = collected@;
    proof {
        assert(!col0.contains_key(e)) by {
            if col0.contains_key(e) {
                let j = choose|j: int| 0 <= j < index && ss.entities@[j] == e;
                assert(ss.entities@[index as int] == e);
            }
        }
    }
    let mut i: usize = 0;
    while i < cands.len()
        invariant
            wv.wf(),
            ss.valid(wv, p, t),
            index < ss.entities@.len(),
            e == ss.entities@[index as int],
            !col0.contains_key(e),
            cands@ == entities_at(ss.candidates, e),
            i <= cands@.len(),
            used@ == used0,
            collected@ == col0,
            used0 == old(used)@,
            col0 == old(collected)@,
            partial_ok(wv, ss, t, index as int, used0, col0),
            forall|j: int| 0 <= j < ret@.len() ==> is_match(wv, p, t, (#[trigger] ret@[j])@),
            forall|j: int| 0 <= j < ret@.len() ==> complete_for(wv, ss, (#[trigger] ret@[j])@),
            ret@.len() >= old(ret)@.len(),
            forall|j: int| 0 <= j < old(ret)@.len() ==> #[trigger] ret@[j] == old(ret)@[j],
            fresh_part(ret@, old(ret)@.len() as int, col0, e, cands@, i as int),
            forall|m: Map<EntityId, EntityId>| complete_for(wv, ss, m) && #[trigger] extends(m, col0)
                && (exists|k: int| 0 <= k < i && cands@[k] == m[e]) ==> listed(ret@, old(ret)@.len() as int, m),
        decreases cands@.len() - i,
    {
        let c = cands[i];
        let mut taken = false;
        let mut u: usize = 0;
        while u < used.len()
            invariant
                u <= used@.len(),
                taken <==> (exists|j: int| 0 <= j < u && used@[j] == c),
            decreases used@.len() - u,
        {
            if used[u] == c {
                taken = true;
            }
            u = u + 1;
        }
        if !taken {
            used.push(c);
            collected.insert(e, c);
            proof {
                assert(wv.is_live(entities_at(ss.candidates, e)[i as int] as int));
                let n = index + 1;
                assert forall|y: EntityId| #[trigger] collected@.contains_key(y) <==> (exists|j: int| 0 <= j < n && ss.entities@[j] == y) by {
                    if y == e {
                        assert(ss.entities@[index as int] == e);
                    }
                    if exists|j: int| 0 <= j < n && ss.entities@[j] == y {
                        let j = choose|j: int| 0 <= j < n && ss.entities@[j] == y;
                        if j < index {
                            assert(col0.contains_key(y));
                        }
                    }
                }
                assert forall|j: int| 0 <= j < n implies collected@[#[trigger] ss.entities@[j]] == used@[j] by {
                    if j < index {
                        assert(ss.entities@[j] != e) by {
                            assert(col0.contains_key(ss.entities@[j]));
                        }
                    }
                }
                assert(used@.no_duplicates()) by {
                    assert forall|a: int, b: int| 0 <= a < b < used@.len() implies used@[a] != used@[b] by {
                        if b == index {
                            assert(used0[a] == used@[a]);
                        }
                    }
                }
            }
            let ghost col1 = collected@;
            let ghost ret1 = ret@;
            proof {
                assert(col1 == col0.insert(e, c));
            }
            if index < ss.entities.len() - 1 {
                let stop = extend(wv, ss, p, t, index + 1, used, collected, ret, first_only);
                proof {
                    assert(cands@.no_duplicates());
                    assert(cands@[i as int] == c);
                    lemma_fresh_part_step(ret1, ret@, old(ret)@.len() as int, col0, e, cands@, i as int);
                }
                proof {
                    if !stop {
                        assert forall|m: Map<EntityId, EntityId>| complete_for(wv, ss, m) && #[trigger] extends(m, col0)
                            && (exists|k: int| 0 <= k < i + 1 && cands@[k] == m[e]) implies listed(ret@, old(ret)@.len() as int, m) by {
                            if m[e] == c {
                                assert(extends(m, col1));
                                let j = choose|j: int| ret1.len() <= j < ret@.len() && (#[trigger] ret@[j])@ == m;
                            } else {
                                let k = choose|k: int| 0 <= k < i + 1 && cands@[k] == m[e];
                                assert(k < i);
                                assert(listed(ret1, old(ret)@.len() as int, m));
                                let j = choose|j: int| old(ret)@.len() <= j < ret1.len() && (#[trigger] ret1[j])@ == m;
                                assert(ret@[j] == ret1[j]);
                            }
                        }
                    }
                }
                collected.remove(&e);
                used.pop();
                proof {
                    assert(collected@ =~= col0);
                    assert(used@ =~= used0);
                }
                if stop {
                    return true;
                }
            } else {
                let ghost m = collected@;
                proof {
                    assert forall|y: EntityId| #[trigger] ss.entities@.contains(y) <==> m.contains_key(y) by {
                        if ss.entities@.contains(y) {
                            let j = choose|j: int| 0 <= j < ss.entities@.len() && ss.entities@[j] == y;
                        }
                    }
                    assert forall|a: EntityId| #[trigger] m.contains_key(a) implies wv.is_live(a as int) && wv.is_live(m[a] as int)
                        && down_spec(wv, t as int, m[a] as int) by {
                        let j = choose|j: int| 0 <= j < ss.entities@.len() && ss.entities@[j] == a;
                        assert(m[ss.entities@[j]] == used@[j]);
                    }
                }
                let ok = check_solution(wv, &ss.entities, collected);
                proof {
                    assert forall|mm: Map<EntityId, EntityId>| complete_for(wv, ss, mm) && #[trigger] extends(mm, col1)
                        implies mm == m by {
                        assert(mm.dom() =~= m.dom());
                        assert(mm =~= m);
                    }
                }
                if ok {
                    let ghost ret_before = ret@;
                    ret.push(collected.clone());
                    proof {
                        assert forall|a: EntityId, b: EntityId| #[trigger] m.contains_key(a) && #[trigger] m.contains_key(b) && a != b
                            implies m[a] != m[b] by {
                            let ja = choose|j: int| 0 <= j < ss.entities@.len() && ss.entities@[j] == a;
                            let jb = choose|j: int| 0 <= j < ss.entities@.len() && ss.entities@[j] == b;
                            assert(m[ss.entities@[ja]] == used@[ja]);
                            assert(m[ss.entities@[jb]] == used@[jb]);
                        }
                        assert(ret@[ret@.len() - 1]@ == m);
                        assert forall|y: EntityId| #[trigger] m.contains_key(y) <==> down_spec(wv, p as int, y as int) by {
                            assert(ss.entities@.contains(y) <==> m.contains_key(y));
                        }
                        assert(is_match(wv, p, t, m));
                        assert forall|j: int| 0 <= j < ret@.len() implies is_match(wv, p, t, (#[trigger] ret@[j])@) by {
                            if j < ret@.len() - 1 {
                                assert(ret@[j] == ret_before[j]);
                            }
                        }
                    }
                }
                collected.remove(&e);
                used.pop();
                proof {
                    assert(collected@ =~= col0);
                    assert(used@ =~= used0);
                }
                proof {
                    if !(ok && first_only) {
                        assert forall|mm: Map<EntityId, EntityId>| complete_for(wv, ss, mm) && #[trigger] extends(mm, col0)
                            && (exists|k: int| 0 <= k < i + 1 && cands@[k] == mm[e]) implies listed(ret@, old(ret)@.len() as int, mm) by {
                            if mm[e] == c {
                                assert(extends(mm, col1));
                                assert(mm == m);
                                assert(ret@[ret@.len() - 1]@ == m);
                            } else {
                                let k = choose|k: int| 0 <= k < i + 1 && cands@[k] == mm[e];
                                assert(k < i);
                                assert(listed(ret1, old(ret)@.len() as int, mm));
                                let j = choose|j: int| old(ret)@.len() <= j < ret1.len() && (#[trigger] ret1[j])@ == mm;
                                assert(ret@[j] == ret1[j]);
                            }
                        }
                    }
                }
                proof {
                    assert(cands@.no_duplicates());
                    assert(cands@[i as int] == c);
                    if ok {
                        assert(ret@[ret@.len() - 1]@ == col1);
                        assert forall|j: int| 0 <= j < ret1.len() implies #[trigger] ret@[j] == ret1[j] by {}
                    } else {
                        assert(ret@ == ret1);
                    }
                    lemma_fresh_part_step(ret1, ret@, old(ret)@.len() as int, col0, e, cands@, i as int);
                }
                if ok && first_only {
                    return true;
                }
            }
        } else {
            proof {
                assert forall|m: Map<EntityId, EntityId>| complete_for(wv, ss, m) && #[trigger] extends(m, col0)
                    && (exists|k: int| 0 <= k < i + 1 && cands@[k] == m[e]) implies listed(ret@, old(ret)@.len() as int, m) by {
                    if m[e] == c {
                        let j = choose|j: int| 0 <= j < used@.len() && used@[j] == c;
                        let ej = ss.entities@[j];
                        assert(col0[ej] == used0[j]);
                        assert(col0.contains_key(ej));
                        assert(m[ej] == c);
                        assert(m.contains_key(e)) by {
                            assert(ss.entities@.contains(e));
                        }
                        assert(ej != e);
                        assert(false);
                    } else {
                        let k = choose|k: int| 0 <= k < i + 1 && cands@[k] == m[e];
                        assert(k < i);
                    }
                }
            }
        }
        i = i + 1;
    }
    proof {
        assert forall|m: Map<EntityId, EntityId>| complete_for(wv, ss, m) && #[trigger] extends(m, old(collected)@)
            implies listed(ret@, old(ret)@.len() as int, m) by {
            assert(cands@.contains(m[e]));
            let k = choose|k: int| 0 <= k < cands@.len() && cands@[k] == m[e];
            assert(extends(m, col0));
        }
    }
    false
}

/// The distinct entities hoisted under `e`, in increasing order.
pub fn down_set(wv: &Weave, e: EntityId) -> (r: Vec<EntityId>)
    requires
        wv.wf(),
    ensures
        strictly_sorted(r@),
        r@.no_duplicates(),
        forall|y: EntityId| #[trigger] r@.contains(y) <==> down_spec(wv, e as int, y as int),
        forall|k: int| 0 <= k < r@.len() ==> wv.is_live(#[trigger] r@[k] as int),
{
    let raw = down(wv, e);
    let mut r: Vec<EntityId> = Vec::new();
    absorb(&mut r, &raw);
    proof {
        assert forall|a: int, b: int| 0 <= a < b < r@.len() implies r@[a] != r@[b] by {}
        assert forall|k: int| 0 <= k < r@.len() implies wv.is_live(#[trigger] r@[k] as int) by {
            assert(r@.contains(r@[k]));
            let j = choose|j: int| 0 <= j < raw@.len() && raw@[j] == r@[k];
        }
    }
    r
}

/// The name that mark `m` carries under datatype `dt`, if its payload there is one string.
pub open spec fn mark_name(wv: &Weave, dt: DatatypeId, m: EntityId) -> Option<Seq<char>> {
    match wv.component(dt, m) {
        Some(pl) => payload_string_spec(pl),
        None => None,
    }
}

/// Mark `m` carries a payload under `dt` that is not one string.
pub open spec fn mark_unreadable(wv: &Weave, dt: DatatypeId, m: EntityId) -> bool {
    wv.component(dt, m) is Some && mark_name(wv, dt, m) is None
}

/// A mark on `e` names `n` under `dt`.
pub open spec fn requires_name(wv: &Weave, e: EntityId, dt: DatatypeId, n: Seq<char>) -> bool {
    exists|m: EntityId| picks(wv, Pick::Marks, e as int, m as int) && #[trigger] mark_name(wv, dt, m) == Some(n)
}

/// Every payload that the marks on `e` carry under `dt` is one string.
pub open spec fn predicates_readable(wv: &Weave, e: EntityId, dt: DatatypeId) -> bool {
    forall|m: EntityId| picks(wv, Pick::Marks, e as int, m as int) ==> !#[trigger] mark_unreadable(wv, dt, m)
}

pub open spec fn with_dt() -> DatatypeId {
    datatype_id_of("With"@)
}

pub open spec fn without_dt() -> DatatypeId {
    datatype_id_of("Without"@)
}

/// The target entity `c` passes the filters of the pattern entity `e`: it reaches `e`'s
/// arrow in- and out-degrees, carries a component for each `With` name on `e` and none
/// for any `Without` name, and those names are readable.
pub open spec fn passes(wv: &Weave, e: EntityId, c: EntityId) -> bool {
    &&& predicates_readable(wv, e, with_dt())
    &&& predicates_readable(wv, e, without_dt())
    &&& degree(wv, Pick::ArrowsIn, c as int) >= degree(wv, Pick::ArrowsIn, e as int)
    &&& degree(wv, Pick::ArrowsOut, c as int) >= degree(wv, Pick::ArrowsOut, e as int)
    &&& forall|n: Seq<char>| requires_name(wv, e, with_dt(), n) ==> (#[trigger] wv.component(datatype_id_of(n), c)) is Some
    &&& forall|n: Seq<char>| requires_name(wv, e, without_dt(), n) ==> (#[trigger] wv.component(datatype_id_of(n), c)) is None
}

/// The first pair of `seed` whose target is `c` has pattern entity `e`.
pub open spec fn seeded_by(seed: Seq<(EntityId, EntityId)>, c: EntityId, e: EntityId) -> bool {
    exists|k: int| 0 <= k < seed.len() && #[trigger] seed[k] == (e, c)
        && forall|j: int| 0 <= j < k ==> (#[trigger] seed[j]).1 != c
}

/// Some pair of `seed` has target `c`.
pub open spec fn seeded_target(seed: Seq<(EntityId, EntityId)>, c: EntityId) -> bool {
    exists|k: int| 0 <= k < seed.len() && (#[trigger] seed[k]).1 == c
}

/// Some pair of `seed` has pattern entity `e`.
pub open spec fn seeded_pattern_entity(seed: Seq<(EntityId, EntityId)>, e: EntityId) -> bool {
    exists|k: int| 0 <= k < seed.len() && (#[trigger] seed[k]).0 == e
}

/// `c` is a candidate for `e`: it is hoisted under `t`, and either the seed pairs it with
/// `e`, or no seed pair names it, `e` is an unseeded entity hoisted under `p`, and `c`
/// passes `e`'s filters.
pub open spec fn candidate(wv: &Weave, seed: Seq<(EntityId, EntityId)>, p: EntityId, t: EntityId,
    e: EntityId, c: EntityId) -> bool {
    &&& down_spec(wv, t as int, c as int)
    &&& if seeded_target(seed, c) {
        seeded_by(seed, c, e)
    } else {
        down_spec(wv, p as int, e as int) && !seeded_pattern_entity(seed, e) && passes(wv, e, c)
    }
}

proof fn lemma_seeded_by_unique(seed: Seq<(EntityId, EntityId)>, c: EntityId, e1: EntityId, e2: EntityId)
    requires
        seeded_by(seed, c, e1),
        seeded_by(seed, c, e2),
    ensures
        e1 == e2,
{
    let k1 = choose|k: int| 0 <= k < seed.len() && #[trigger] seed[k] == (e1, c)
        && forall|j: int| 0 <= j < k ==> (#[trigger] seed[j]).1 != c;
    let k2 = choose|k: int| 0 <= k < seed.len() && #[trigger] seed[k] == (e2, c)
        && forall|j: int| 0 <= j < k ==> (#[trigger] seed[j]).1 != c;
    if k1 < k2 {
        assert(seed[k1].1 == c);
    } else if k2 < k1 {
        assert(seed[k2].1 == c);
    }
}

proof fn lemma_among_step(s: Seq<EntityId>, n: int, x: EntityId)
    requires
        0 <= n < s.len(),
    ensures
        among(s, n + 1, x) <==> (among(s, n, x) || s[n] == x),
{
    if among(s, n + 1, x) {
        let j = choose|j: int| 0 <= j < n + 1 && s[j] == x;
        if j < n {
            assert(among(s, n, x));
        }
    }
    if s[n] == x {
        assert(among(s, n + 1, x));
    }
    if among(s, n, x) {
        let j = choose|j: int| 0 <= j < n && s[j] == x;
        assert(among(s, n + 1, x));
    }
}

proof fn lemma_not_among_later(s: Seq<EntityId>, n: int)
    requires
        0 <= n < s.len(),
        s.no_duplicates(),
    ensures
        !among(s, n, s[n]),
{
    if among(s, n, s[n]) {
        let j = choose|j: int| 0 <= j < n && s[j] == s[n];
    }
}

proof fn lemma_among_all(s: Seq<EntityId>, x: EntityId)
    ensures
        among(s, s.len() as int, x) == s.contains(x),
{
}

proof fn lemma_push_no_dup(s: Seq<EntityId>, y: EntityId)
    requires
        s.no_duplicates(),
        !s.contains(y),
    ensures
        s.push(y).no_duplicates(),
{
    assert forall|a: int, b: int| 0 <= a < b < s.push(y).len() implies s.push(y)[a] != s.push(y)[b] by {
        if b == s.len() {
            assert(s.push(y)[a] == s[a]);
        }
    }
}

proof fn lemma_push_contains(s: Seq<EntityId>, y: EntityId, c: EntityId)
    ensures
        s.push(y).contains(c) <==> (s.contains(c) || c == y),
{
    if s.push(y).contains(c) {
        let j = choose|j: int| 0 <= j < s.push(y).len() && s.push(y)[j] == c;
        if j < s.len() {
            assert(s[j] == c);
        }
    }
    if s.contains(c) {
        let j = choose|j: int| 0 <= j < s.len() && s[j] == c;
        assert(s.push(y)[j] == c);
    }
    if c == y {
        assert(s.push(y)[s.len() as int] == c);
    }
}

/// `n` is one of `names`.
pub open spec fn listed_name(names: Seq<String>, n: Seq<char>) -> bool {
    exists|i: int| 0 <= i < names.len() && (#[trigger] names[i])@ == n
}

/// One of the first `k` marks of `ms` names `n` under `dt`.
pub open spec fn named_upto(wv: &Weave, dt: DatatypeId, ms: Seq<EntityId>, k: int, n: Seq<char>) -> bool {
    exists|j: int| 0 <= j < k && mark_name(wv, dt, #[trigger] ms[j]) == Some(n)
}

/// The names that the marks on `e` carry under the datatype `name`, and whether all of
/// those payloads are readable.
fn predicate_names(wv: &Weave, e: EntityId, name: &str) -> (r: (Vec<String>, bool))
    requires
        wv.wf(),
    ensures
        r.1 == predicates_readable(wv, e, datatype_id_of(name@)),
        names_listed(wv, e, datatype_id_of(name@), r.0@),
{
    let ghost dt = datatype_id_of(name@);
    let one = vec![e];
    let ms = marks(wv, one.as_slice());
    proof {
        assert forall|m: EntityId| #[trigger] ms@.contains(m) <==> picks(wv, Pick::Marks, e as int, m as int) by {
            if picks(wv, Pick::Marks, e as int, m as int) {
                assert(picks(wv, Pick::Marks, one@[0] as int, m as int));
            }
        }
    }
    let mut names: Vec<String> = Vec::new();
    let mut readable = true;
    let mut k: usize = 0;
    while k < ms.len()
        invariant
            wv.wf(),
            k <= ms@.len(),
            dt == datatype_id_of(name@),
            forall|m: EntityId| #[trigger] ms@.contains(m) <==> picks(wv, Pick::Marks, e as int, m as int),
            readable == forall|j: int| 0 <= j < k ==> !mark_unreadable(wv, dt, #[trigger] ms@[j]),
            forall|n: Seq<char>| #[trigger] listed_name(names@, n) <==> named_upto(wv, dt, ms@, k as int, n),
        decreases ms@.len() - k,
    {
        let ghost old_names = names@;
        match wv.get_component_raw(ms[k], name) {
            None => {},
            Some(payload) => match payload_string(payload.as_slice()) {
                Some(n) => { names.push(n); },
                None => { readable = false; },
            },
        }
        proof {
            assert forall|n: Seq<char>| #[trigger] listed_name(names@, n) <==> named_upto(wv, dt, ms@, k + 1, n) by {
                if listed_name(names@, n) {
                    let i = choose|i: int| 0 <= i < names@.len() && (#[trigger] names@[i])@ == n;
                    if i < old_names.len() {
                        assert(old_names[i] == names@[i]);
                        assert(listed_name(old_names, n));
                        let j = choose|j: int| 0 <= j < k && mark_name(wv, dt, #[trigger] ms@[j]) == Some(n);
                    } else {
                        assert(mark_name(wv, dt, ms@[k as int]) == Some(n));
                    }
                }
                if named_upto(wv, dt, ms@, k + 1, n) {
                    let j = choose|j: int| 0 <= j < k + 1 && mark_name(wv, dt, #[trigger] ms@[j]) == Some(n);
                    if j < k {
                        assert(named_upto(wv, dt, ms@, k as int, n));
                        assert(listed_name(old_names, n));
                        let i = choose|i: int| 0 <= i < old_names.len() && (#[trigger] old_names[i])@ == n;
                        assert(names@[i] == old_names[i]);
                    } else {
                        assert(names@[names@.len() - 1]@ == n);
                    }
                }
            }
        }
        k = k + 1;
    }
    proof {
        assert(readable == predicates_readable(wv, e, dt)) by {
            if readable {
                assert forall|m: EntityId| picks(wv, Pick::Marks, e as int, m as int) implies !#[trigger] mark_unreadable(wv, dt, m) by {
                    assert(ms@.contains(m));
                    let j = choose|j: int| 0 <= j < ms@.len() && ms@[j] == m;
                }
            } else {
                let j = choose|j: int| 0 <= j < k && mark_unreadable(wv, dt, #[trigger] ms@[j]);
                assert(ms@.contains(ms@[j]));
            }
        }
        assert forall|n: Seq<char>| #[trigger] listed_name(names@, n) <==> requires_name(wv, e, dt, n) by {
            if requires_name(wv, e, dt, n) {
                let m = choose|m: EntityId| picks(wv, Pick::Marks, e as int, m as int) && #[trigger] mark_name(wv, dt, m) == Some(n);
                assert(ms@.contains(m));
                let j = choose|j: int| 0 <= j < ms@.len() && ms@[j] == m;
                assert(named_upto(wv, dt, ms@, k as int, n));
            }
            if named_upto(wv, dt, ms@, k as int, n) {
                let j = choose|j: int| 0 <= j < k && mark_name(wv, dt, #[trigger] ms@[j]) == Some(n);
                assert(ms@.contains(ms@[j]));
            }
        }
    }
    (names, readable)
}

/// `e` carries a component for each of `names`.
fn has_all(wv: &Weave, e: EntityId, names: &Vec<String>) -> (r: bool)
    requires
        wv.wf(),
    ensures
        r == forall|k: int| 0 <= k < names@.len() ==> (#[trigger] wv.component(datatype_id_of(names@[k]@), e)) is Some,
{
    let mut k: usize = 0;
    while k < names.len()
        invariant
            wv.wf(),
            k <= names@.len(),
            forall|j: int| 0 <= j < k ==> (#[trigger] wv.component(datatype_id_of(names@[j]@), e)) is Some,
        decreases names@.len() - k,
    {
        if !wv.has_component(e, names[k].as_str()) {
            return false;
        }
        k = k + 1;
    }
    true
}

/// `e` carries a component for one of `names`.
fn has_any(wv: &Weave, e: EntityId, names: &Vec<String>) -> (r: bool)
    requires
        wv.wf(),
    ensures
        r == exists|k: int| 0 <= k < names@.len() && (#[trigger] wv.component(datatype_id_of(names@[k]@), e)) is Some,
{
    let mut k: usize = 0;
    while k < names.len()
        invariant
            wv.wf(),
            k <= names@.len(),
            forall|j: int| 0 <= j < k ==> (#[trigger] wv.component(datatype_id_of(names@[j]@), e)) is None,
        decreases names@.len() - k,
    {
        if wv.has_component(e, names[k].as_str()) {
            return true;
        }
        k = k + 1;
    }
    false
}

fn seeded_pattern(seed: &Vec<(EntityId, EntityId)>, target: EntityId) -> (r: Option<EntityId>)
    ensures
        r is None <==> !seeded_target(seed@, target),
        r matches Some(e) ==> seeded_by(seed@, target, e),
{
    let mut k: usize = 0;
    while k < seed.len()
        invariant
            k <= seed@.len(),
            forall|j: int| 0 <= j < k ==> (#[trigger] seed@[j]).1 != target,
        decreases seed@.len() - k,
    {
        if seed[k].1 == target {
            proof {
                assert(seed@[k as int] == (seed@[k as int].0, target));
            }
            return Some(seed[k].0);
        }
        k = k + 1;
    }
    None
}

fn is_seeded(seed: &Vec<(EntityId, EntityId)>, pattern: EntityId) -> (r: bool)
    ensures
        r == seeded_pattern_entity(seed@, pattern),
{
    let mut k: usize = 0;
    while k < seed.len()
        invariant
            k <= seed@.len(),
            forall|j: int| 0 <= j < k ==> (#[trigger] seed@[j]).0 != pattern,
        decreases seed@.len() - k,
    {
        if seed[k].0 == pattern {
            return true;
        }
        k = k + 1;
    }
    false
}

/// The names in `names` are exactly those that the marks on `e` carry under `dt`.
pub open spec fn names_listed(wv: &Weave, e: EntityId, dt: DatatypeId, names: Seq<String>) -> bool {
    forall|n: Seq<char>| #[trigger] listed_name(names, n) <==> requires_name(wv, e, dt, n)
}

/// The first `k` entries of the per-pattern arrays describe the first `k` pattern
/// entities.
pub open spec fn filters_ok(wv: &Weave, pattern: Seq<EntityId>, k: int, in_deg: Seq<usize>, out_deg: Seq<usize>,
    usable: Seq<bool>, withs: Seq<Vec<String>>, withouts: Seq<Vec<String>>) -> bool {
    &&& forall|j: int| 0 <= j < k ==> #[trigger] in_deg[j] == degree(wv, Pick::ArrowsIn, pattern[j] as int)
    &&& forall|j: int| 0 <= j < k ==> #[trigger] out_deg[j] == degree(wv, Pick::ArrowsOut, pattern[j] as int)
    &&& forall|j: int| 0 <= j < k ==> #[trigger] usable[j] == (predicates_readable(wv, pattern[j], with_dt())
        && predicates_readable(wv, pattern[j], without_dt()))
    &&& forall|j: int| 0 <= j < k ==> names_listed(wv, pattern[j], with_dt(), #[trigger] withs[j]@)
    &&& forall|j: int| 0 <= j < k ==> names_listed(wv, pattern[j], without_dt(), #[trigger] withouts[j]@)
}

/// Search order: seeded entities before unseeded ones, then fewer candidates first.
pub open spec fn ranks_before(s1: bool, c1: int, s2: bool, c2: int) -> bool {
    (s1 && !s2) || (s1 == s2 && c1 <= c2)
}

fn rank_le(s1: bool, c1: usize, s2: bool, c2: usize) -> (r: bool)
    ensures
        r == ranks_before(s1, c1 as int, s2, c2 as int),
{
    (s1 && !s2) || (s1 == s2 && c1 <= c2)
}

/// Builds the search space of pattern root `p` against target root `t`: the candidates
/// of each pattern entity are exactly the targets that `candidate` admits, pattern
/// entities come seeded first, then in ascending order of their number of candidates, and the result is
/// `None` exactly when some pattern entity has no candidate.
pub fn prepare_search_space(wv: &Weave, p: EntityId, t: EntityId, seed: &Vec<(EntityId, EntityId)>) -> (r: Option<SearchSpace>)
    requires
        wv.wf(),
    ensures
        r is None <==> exists|e: EntityId| down_spec(wv, p as int, e as int)
            && forall|c: EntityId| !#[trigger] candidate(wv, seed@, p, t, e, c),
        r matches Some(ss) ==> {
            &&& ss.valid(wv, p, t)
            &&& forall|e: EntityId, c: EntityId| down_spec(wv, p as int, e as int) ==>
                (entities_at(ss.candidates, e).contains(c) <==> #[trigger] candidate(wv, seed@, p, t, e, c))
            &&& forall|i: int, j: int| 0 <= i < j < ss.entities@.len() ==> ranks_before(
                seeded_pattern_entity(seed@, #[trigger] ss.entities@[i]), entities_at(ss.candidates, ss.entities@[i]).len() as int,
                seeded_pattern_entity(seed@, #[trigger] ss.entities@[j]), entities_at(ss.candidates, ss.entities@[j]).len() as int)
        },
{
    let pattern = down_set(wv, p);
    let targets = down_set(wv, t);
    let mut in_deg: Vec<usize> = Vec::new();
    let mut out_deg: Vec<usize> = Vec::new();
    let mut withs: Vec<Vec<String>> = Vec::new();
    let mut withouts: Vec<Vec<String>> = Vec::new();
    let mut usable: Vec<bool> = Vec::new();
    let mut k: usize = 0;
    while k < pattern.len()
        invariant
            wv.wf(),
            k <= pattern@.len(),
            in_deg@.len() == k,
            out_deg@.len() == k,
            withs@.len() == k,
            withouts@.len() == k,
            usable@.len() == k,
            filters_ok(wv, pattern@, k as int, in_deg@, out_deg@, usable@, withs@, withouts@),
        decreases pattern@.len() - k,
    {
        in_deg.push(count_picks(wv, Pick::ArrowsIn, pattern[k]));
        out_deg.push(count_picks(wv, Pick::ArrowsOut, pattern[k]));
        let (w, ok_w) = predicate_names(wv, pattern[k], "With");
        let (wo, ok_wo) = predicate_names(wv, pattern[k], "Without");
        withs.push(w);
        withouts.push(wo);
        usable.push(ok_w && ok_wo);
        proof {
            assert forall|j: int| 0 <= j < k + 1 implies names_listed(wv, pattern@[j], with_dt(), #[trigger] withs@[j]@) by {
                if j == k {
                    assert(withs@[j] == w);
                }
            }
            assert forall|j: int| 0 <= j < k + 1 implies names_listed(wv, pattern@[j], without_dt(), #[trigger] withouts@[j]@) by {
                if j == k {
                    assert(withouts@[j] == wo);
                }
            }
        }
        k = k + 1;
    }
    let mut candidates = entity_lists_new();
    let mut ti: usize = 0;
    while ti < targets.len()
        invariant
            wv.wf(),
            ti <= targets@.len(),
            pattern@.no_duplicates(),
            targets@.no_duplicates(),
            forall|y: EntityId| #[trigger] pattern@.contains(y) <==> down_spec(wv, p as int, y as int),
            in_deg@.len() == pattern@.len(),
            out_deg@.len() == pattern@.len(),
            withs@.len() == pattern@.len(),
            withouts@.len() == pattern@.len(),
            usable@.len() == pattern@.len(),
            filters_ok(wv, pattern@, pattern@.len() as int, in_deg@, out_deg@, usable@, withs@, withouts@),
            forall|y: EntityId| #[trigger] targets@.contains(y) <==> down_spec(wv, t as int, y as int),
            forall|j: int| 0 <= j < targets@.len() ==> wv.is_live(#[trigger] targets@[j] as int),
            forall|e: EntityId, j: int| 0 <= j < entities_at(candidates, e).len() ==>
                wv.is_live(#[trigger] entities_at(candidates, e)[j] as int)
                && down_spec(wv, t as int, entities_at(candidates, e)[j] as int),
            forall|e: EntityId| #[trigger] entity_lists(candidates).contains_key(e) ==> entities_at(candidates, e).len() > 0,
            forall|e: EntityId, c: EntityId| down_spec(wv, p as int, e as int) ==>
                (#[trigger] entities_at(candidates, e).contains(c) <==> (among(targets@, ti as int, c) && candidate(wv, seed@, p, t, e, c))),
            forall|e: EntityId| (#[trigger] entities_at(candidates, e)).no_duplicates(),
            forall|e: EntityId, j: int| 0 <= j < entities_at(candidates, e).len() ==>
                among(targets@, ti as int, #[trigger] entities_at(candidates, e)[j]),
        decreases targets@.len() - ti,
    {
        let tg = targets[ti];
        proof {
            assert(targets@.contains(tg));
        }
        match seeded_pattern(seed, tg) {
            Some(pe) => {
                let ghost c0 = candidates;
                entity_lists_insert(&mut candidates, pe, tg);
                proof {
                    assert forall|e: EntityId, j: int| 0 <= j < entities_at(candidates, e).len() implies
                        wv.is_live(#[trigger] entities_at(candidates, e)[j] as int)
                        && down_spec(wv, t as int, entities_at(candidates, e)[j] as int) by {
                        if e == pe && j == entities_at(c0, e).len() {
                        } else {
                            assert(entities_at(candidates, e)[j] == entities_at(c0, e)[j]);
                        }
                    }
                    assert forall|e: EntityId| #[trigger] entity_lists(candidates).contains_key(e) implies entities_at(candidates, e).len() > 0 by {
                        if e != pe {
                            assert(entity_lists(c0).contains_key(e));
                        }
                    }
                    lemma_not_among_later(targets@, ti as int);
                    assert forall|e: EntityId| (#[trigger] entities_at(candidates, e)).no_duplicates() by {
                        if e == pe {
                            let l0 = entities_at(c0, e);
                            assert(entities_at(candidates, e) == l0.push(tg));
                            assert(!l0.contains(tg)) by {
                                if l0.contains(tg) {
                                    let j = choose|j: int| 0 <= j < l0.len() && l0[j] == tg;
                                    assert(among(targets@, ti as int, l0[j]));
                                }
                            }
                            lemma_push_no_dup(l0, tg);
                        } else {
                            assert(entities_at(candidates, e) == entities_at(c0, e));
                        }
                    }
                    assert forall|e: EntityId, j: int| 0 <= j < entities_at(candidates, e).len() implies
                        among(targets@, ti + 1, #[trigger] entities_at(candidates, e)[j]) by {
                        let x = entities_at(candidates, e)[j];
                        lemma_among_step(targets@, ti as int, x);
                        if !(e == pe && j == entities_at(c0, e).len()) {
                            assert(x == entities_at(c0, e)[j]);
                        }
                    }
                    assert forall|e: EntityId, c: EntityId| down_spec(wv, p as int, e as int) implies
                        (#[trigger] entities_at(candidates, e).contains(c) <==> (among(targets@, ti + 1, c) && candidate(wv, seed@, p, t, e, c))) by {
                        lemma_among_step(targets@, ti as int, c);
                        if e == pe {
                            assert(entities_at(candidates, e) == entities_at(c0, e).push(tg));
                            lemma_push_contains(entities_at(c0, e), tg, c);
                        } else {
                            assert(entities_at(candidates, e) == entities_at(c0, e));
                        }
                        if c == tg {
                            lemma_not_among_later(targets@, ti as int);
                            if candidate(wv, seed@, p, t, e, c) {
                                lemma_seeded_by_unique(seed@, tg, e, pe);
                            }
                        }
                    }
                }
            },
            None => {
                let tin = count_picks(wv, Pick::ArrowsIn, tg);
                let tout = count_picks(wv, Pick::ArrowsOut, tg);
                let mut pi: usize = 0;
                while pi < pattern.len()
                    invariant
                        wv.wf(),
                        pi <= pattern@.len(),
                        ti < targets@.len(),
                        tg == targets@[ti as int],
                        !seeded_target(seed@, tg),
                        pattern@.no_duplicates(),
                        targets@.no_duplicates(),
                        forall|y: EntityId| #[trigger] pattern@.contains(y) <==> down_spec(wv, p as int, y as int),
                        in_deg@.len() == pattern@.len(),
                        out_deg@.len() == pattern@.len(),
                        withs@.len() == pattern@.len(),
                        withouts@.len() == pattern@.len(),
                        usable@.len() == pattern@.len(),
                        filters_ok(wv, pattern@, pattern@.len() as int, in_deg@, out_deg@, usable@, withs@, withouts@),
                        wv.is_live(tg as int),
                        down_spec(wv, t as int, tg as int),
                        tin == degree(wv, Pick::ArrowsIn, tg as int),
                        tout == degree(wv, Pick::ArrowsOut, tg as int),
                        forall|e: EntityId, j: int| 0 <= j < entities_at(candidates, e).len() ==>
                            wv.is_live(#[trigger] entities_at(candidates, e)[j] as int)
                            && down_spec(wv, t as int, entities_at(candidates, e)[j] as int),
                        forall|e: EntityId| #[trigger] entity_lists(candidates).contains_key(e) ==> entities_at(candidates, e).len() > 0,
                        forall|e: EntityId, c: EntityId| down_spec(wv, p as int, e as int) ==>
                            (#[trigger] entities_at(candidates, e).contains(c) <==> (
                                (among(targets@, ti as int, c) && candidate(wv, seed@, p, t, e, c))
                                || (c == tg && among(pattern@, pi as int, e) && candidate(wv, seed@, p, t, e, c)))),
                        forall|e: EntityId| (#[trigger] entities_at(candidates, e)).no_duplicates(),
                        forall|e: EntityId, j: int| 0 <= j < entities_at(candidates, e).len() ==>
                            among(targets@, ti as int, #[trigger] entities_at(candidates, e)[j])
                            || (entities_at(candidates, e)[j] == tg && among(pattern@, pi as int, e)),
                    decreases pattern@.len() - pi,
                {
                    let pe = pattern[pi];
                    let all_with = has_all(wv, tg, &withs[pi]);
                    let any_without = has_any(wv, tg, &withouts[pi]);
                    let seeded = is_seeded(seed, pe);
                    let accepted = usable[pi] && tin >= in_deg[pi] && tout >= out_deg[pi] && all_with && !any_without && !seeded;
                    proof {
                        let ws = withs@[pi as int]@;
                        let wos = withouts@[pi as int]@;
                        assert(names_listed(wv, pe, with_dt(), ws));
                        assert(names_listed(wv, pe, without_dt(), wos));
                        assert(pattern@.contains(pe));
                        assert(all_with == forall|n: Seq<char>| requires_name(wv, pe, with_dt(), n) ==>
                            (#[trigger] wv.component(datatype_id_of(n), tg)) is Some) by {
                            if all_with {
                                assert forall|n: Seq<char>| requires_name(wv, pe, with_dt(), n) implies
                                    (#[trigger] wv.component(datatype_id_of(n), tg)) is Some by {
                                    assert(listed_name(ws, n));
                                    let i = choose|i: int| 0 <= i < ws.len() && (#[trigger] ws[i])@ == n;
                                    assert(wv.component(datatype_id_of(ws[i]@), tg) is Some);
                                }
                            } else {
                                let i = choose|i: int| 0 <= i < ws.len()
                                    && !((#[trigger] wv.component(datatype_id_of(ws[i]@), tg)) is Some);
                                let n = ws[i]@;
                                assert(listed_name(ws, n));
                                assert(requires_name(wv, pe, with_dt(), n));
                            }
                        }
                        assert(!any_without == forall|n: Seq<char>| requires_name(wv, pe, without_dt(), n) ==>
                            (#[trigger] wv.component(datatype_id_of(n), tg)) is None) by {
                            if any_without {
                                let i = choose|i: int| 0 <= i < wos.len()
                                    && (#[trigger] wv.component(datatype_id_of(wos[i]@), tg)) is Some;
                                let n = wos[i]@;
                                assert(listed_name(wos, n));
                                assert(requires_name(wv, pe, without_dt(), n));
                            } else {
                                assert forall|n: Seq<char>| requires_name(wv, pe, without_dt(), n) implies
                                    (#[trigger] wv.component(datatype_id_of(n), tg)) is None by {
                                    assert(listed_name(wos, n));
                                    let i = choose|i: int| 0 <= i < wos.len() && (#[trigger] wos[i])@ == n;
                                    assert(!(wv.component(datatype_id_of(wos[i]@), tg) is Some));
                                }
                            }
                        }
                        assert(in_deg@[pi as int] == degree(wv, Pick::ArrowsIn, pattern@[pi as int] as int));
                        assert(out_deg@[pi as int] == degree(wv, Pick::ArrowsOut, pattern@[pi as int] as int));
                        assert(usable@[pi as int] == (predicates_readable(wv, pattern@[pi as int], with_dt())
                            && predicates_readable(wv, pattern@[pi as int], without_dt())));
                        assert(accepted == candidate(wv, seed@, p, t, pe, tg));
                    }
                    let ghost c0 = candidates;
                    if accepted {
                        entity_lists_insert(&mut candidates, pe, tg);
                    }
                    proof {
                        assert forall|e: EntityId, j: int| 0 <= j < entities_at(candidates, e).len() implies
                            wv.is_live(#[trigger] entities_at(candidates, e)[j] as int)
                            && down_spec(wv, t as int, entities_at(candidates, e)[j] as int) by {
                            if accepted && e == pe && j == entities_at(c0, e).len() {
                            } else {
                                assert(entities_at(candidates, e)[j] == entities_at(c0, e)[j]);
                            }
                        }
                        assert forall|e: EntityId| #[trigger] entity_lists(candidates).contains_key(e) implies entities_at(candidates, e).len() > 0 by {
                            if !(accepted && e == pe) {
                                assert(entity_lists(c0).contains_key(e));
                            }
                        }
                        lemma_not_among_later(targets@, ti as int);
                        lemma_not_among_later(pattern@, pi as int);
                        assert forall|e: EntityId| (#[trigger] entities_at(candidates, e)).no_duplicates() by {
                            if accepted && e == pe {
                                let l0 = entities_at(c0, e);
                                assert(entities_at(candidates, e) == l0.push(tg));
                                assert(!l0.contains(tg)) by {
                                    if l0.contains(tg) {
                                        let j = choose|j: int| 0 <= j < l0.len() && l0[j] == tg;
                                        assert(among(targets@, ti as int, l0[j]) || (l0[j] == tg && among(pattern@, pi as int, e)));
                                    }
                                }
                                lemma_push_no_dup(l0, tg);
                            } else {
                                assert(entities_at(candidates, e) == entities_at(c0, e));
                            }
                        }
                        assert forall|e: EntityId, j: int| 0 <= j < entities_at(candidates, e).len() implies
                            among(targets@, ti as int, #[trigger] entities_at(candidates, e)[j])
                            || (entities_at(candidates, e)[j] == tg && among(pattern@, pi + 1, e)) by {
                            lemma_among_step(pattern@, pi as int, e);
                            if !(accepted && e == pe && j == entities_at(c0, e).len()) {
                                assert(entities_at(candidates, e)[j] == entities_at(c0, e)[j]);
                            }
                        }
                        assert forall|e: EntityId, c: EntityId| down_spec(wv, p as int, e as int) implies
                            (#[trigger] entities_at(candidates, e).contains(c) <==> (
                                (among(targets@, ti as int, c) && candidate(wv, seed@, p, t, e, c))
                                || (c == tg && among(pattern@, pi + 1, e) && candidate(wv, seed@, p, t, e, c)))) by {
                            lemma_among_step(pattern@, pi as int, e);
                            if accepted && e == pe {
                                assert(entities_at(candidates, e) == entities_at(c0, e).push(tg));
                                lemma_push_contains(entities_at(c0, e), tg, c);
                            } else {
                                assert(entities_at(candidates, e) == entities_at(c0, e));
                            }
                            if e == pe {
                                lemma_not_among_later(pattern@, pi as int);
                            }
                        }
                    }
                    pi = pi + 1;
                }
                proof {
                    assert forall|e: EntityId, j: int| 0 <= j < entities_at(candidates, e).len() implies
                        among(targets@, ti + 1, #[trigger] entities_at(candidates, e)[j]) by {
                        lemma_among_step(targets@, ti as int, entities_at(candidates, e)[j]);
                    }
                    assert forall|e: EntityId, c: EntityId| down_spec(wv, p as int, e as int) implies
                        (#[trigger] entities_at(candidates, e).contains(c) <==> (among(targets@, ti + 1, c) && candidate(wv, seed@, p, t, e, c))) by {
                        lemma_among_step(targets@, ti as int, c);
                        assert(pattern@.contains(e));
                        lemma_among_all(pattern@, e);
                        if c == tg {
                            lemma_not_among_later(targets@, ti as int);
                        }
                    }
                }
            },
        }
        ti = ti + 1;
    }
    proof {
        assert forall|e: EntityId, c: EntityId| down_spec(wv, p as int, e as int) implies
            (#[trigger] entities_at(candidates, e).contains(c) <==> candidate(wv, seed@, p, t, e, c)) by {
            lemma_among_all(targets@, c);
            if candidate(wv, seed@, p, t, e, c) {
                assert(targets@.contains(c));
            }
        }
    }
    let mut order: Vec<EntityId> = Vec::new();
    let mut counts: Vec<usize> = Vec::new();
    let mut flags: Vec<bool> = Vec::new();
    let mut k: usize = 0;
    while k < pattern.len()
        invariant
            wv.wf(),
            k <= pattern@.len(),
            pattern@.no_duplicates(),
            forall|y: EntityId| #[trigger] pattern@.contains(y) <==> down_spec(wv, p as int, y as int),
            forall|e: EntityId, j: int| 0 <= j < entities_at(candidates, e).len() ==>
                wv.is_live(#[trigger] entities_at(candidates, e)[j] as int)
                && down_spec(wv, t as int, entities_at(candidates, e)[j] as int),
            order@.len() == counts@.len(),
            order@.no_duplicates(),
            forall|y: EntityId| #[trigger] order@.contains(y) <==> (exists|j: int| 0 <= j < k && pattern@[j] == y),
            forall|j: int| 0 <= j < counts@.len() ==> #[trigger] counts@[j] == entities_at(candidates, order@[j]).len(),
            flags@.len() == counts@.len(),
            forall|j: int| 0 <= j < flags@.len() ==> #[trigger] flags@[j] == seeded_pattern_entity(seed@, order@[j]),
            forall|i: int, j: int| 0 <= i < j < counts@.len() ==>
                ranks_before(flags@[i], #[trigger] counts@[i] as int, flags@[j], #[trigger] counts@[j] as int),
            forall|j: int| 0 <= j < k ==> entities_at(candidates, #[trigger] pattern@[j]).len() > 0,
            forall|e: EntityId| #[trigger] entity_lists(candidates).contains_key(e) ==> entities_at(candidates, e).len() > 0,
            forall|e: EntityId, c: EntityId| down_spec(wv, p as int, e as int) ==>
                (#[trigger] entities_at(candidates, e).contains(c) <==> candidate(wv, seed@, p, t, e, c)),
            forall|e: EntityId| (#[trigger] entities_at(candidates, e)).no_duplicates(),
        decreases pattern@.len() - k,
    {
        let pe = pattern[k];
        let count = match entity_lists_get(&candidates, pe) {
            None => {
                proof {
                    assert(pattern@.contains(pe));
                    assert forall|c: EntityId| !#[trigger] candidate(wv, seed@, p, t, pe, c) by {
                        assert(!entities_at(candidates, pe).contains(c));
                    }
                }
                return None;
            },
            Some(v) => v.len(),
        };
        let flag = is_seeded(seed, pe);
        let mut pos: usize = 0;
        while pos < counts.len() && rank_le(flags[pos], counts[pos], flag, count)
            invariant
                pos <= counts@.len(),
                flags@.len() == counts@.len(),
                forall|j: int| 0 <= j < pos ==> ranks_before(flags@[j], counts@[j] as int, flag, count as int),
            decreases counts@.len() - pos,
        {
            pos = pos + 1;
        }
        let ghost c0 = counts@;
        let ghost f0 = flags@;
        let ghost o0 = order@;
        proof {
            assert(!order@.contains(pe)) by {
                if order@.contains(pe) {
                    let j = choose|j: int| 0 <= j < k && pattern@[j] == pe;
                    assert(pattern@[k as int] == pe);
                }
            }
            lemma_insert_fresh(order@, pos as int, pe);
        }
        order.insert(pos, pe);
        counts.insert(pos, count);
        flags.insert(pos, flag);
        proof {
            assert forall|j: int| 0 <= j < counts@.len() implies #[trigger] counts@[j] == entities_at(candidates, order@[j]).len() by {
                if j < pos {
                    assert(counts@[j] == c0[j] && order@[j] == o0[j]);
                } else if j > pos {
                    assert(counts@[j] == c0[j - 1] && order@[j] == o0[j - 1]);
                }
            }
            assert forall|j: int| 0 <= j < flags@.len() implies #[trigger] flags@[j] == seeded_pattern_entity(seed@, order@[j]) by {
                if j < pos {
                    assert(flags@[j] == f0[j] && order@[j] == o0[j]);
                } else if j > pos {
                    assert(flags@[j] == f0[j - 1] && order@[j] == o0[j - 1]);
                }
            }
            let rk = |a: int| -> (bool, int) {
                if a < pos { (f0[a], c0[a] as int) } else if a == pos { (flag, count as int) } else { (f0[a - 1], c0[a - 1] as int) }
            };
            assert forall|a: int| 0 <= a < counts@.len() implies flags@[a] == rk(a).0 && counts@[a] as int == rk(a).1 by {}
            assert forall|i: int, j: int| 0 <= i < j < counts@.len() implies
                ranks_before(flags@[i], #[trigger] counts@[i] as int, flags@[j], #[trigger] counts@[j] as int) by {
                assert(flags@[i] == rk(i).0 && counts@[i] as int == rk(i).1);
                assert(flags@[j] == rk(j).0 && counts@[j] as int == rk(j).1);
                if j < pos {
                    assert(ranks_before(f0[i], c0[i] as int, f0[j], c0[j] as int));
                } else if j == pos {
                    assert(ranks_before(f0[i], c0[i] as int, flag, count as int));
                } else if i < pos {
                    assert(ranks_before(f0[i], c0[i] as int, flag, count as int));
                    assert(!ranks_before(f0[pos as int], c0[pos as int] as int, flag, count as int));
                    if j - 1 > pos {
                        assert(ranks_before(f0[pos as int], c0[pos as int] as int, f0[j - 1], c0[j - 1] as int));
                    }
                } else if i == pos {
                    assert(!ranks_before(f0[pos as int], c0[pos as int] as int, flag, count as int));
                    if j - 1 > pos {
                        assert(ranks_before(f0[pos as int], c0[pos as int] as int, f0[j - 1], c0[j - 1] as int));
                    }
                } else {
                    assert(ranks_before(f0[i - 1], c0[i - 1] as int, f0[j - 1], c0[j - 1] as int));
                }
            }
            assert forall|y: EntityId| #[trigger] order@.contains(y) <==> (exists|j: int| 0 <= j < k + 1 && pattern@[j] == y) by {
                if exists|j: int| 0 <= j < k + 1 && pattern@[j] == y {
                    let j = choose|j: int| 0 <= j < k + 1 && pattern@[j] == y;
                    if j < k {
                        assert(exists|j: int| 0 <= j < k && pattern@[j] == y);
                    }
                }
            }
        }
        k = k + 1;
    }
    proof {
        assert forall|y: EntityId| #[trigger] order@.contains(y) <==> down_spec(wv, p as int, y as int) by {
            if pattern@.contains(y) {
                let j = choose|j: int| 0 <= j < pattern@.len() && pattern@[j] == y;
            }
        }
        assert forall|j: int| 0 <= j < order@.len() implies wv.is_live(#[trigger] order@[j] as int) by {
            assert(order@.contains(order@[j]));
        }
        assert forall|e: EntityId| down_spec(wv, p as int, e as int) implies
            !(forall|c: EntityId| !#[trigger] candidate(wv, seed@, p, t, e, c)) by {
            assert(pattern@.contains(e));
            let j = choose|j: int| 0 <= j < pattern@.len() && pattern@[j] == e;
            assert(entities_at(candidates, pattern@[j]).len() > 0);
            let c = entities_at(candidates, e)[0];
            assert(entities_at(candidates, e).contains(c));
        }
        assert forall|e: EntityId, c: EntityId| down_spec(wv, p as int, e as int) implies
            (entities_at(candidates, e).contains(c) <==> #[trigger] candidate(wv, seed@, p, t, e, c)) by {
            assert(entities_at(candidates, e).contains(c) <==> candidate(wv, seed@, p, t, e, c));
        }
        assert forall|i: int, j: int| 0 <= i < j < order@.len() implies ranks_before(
            seeded_pattern_entity(seed@, #[trigger] order@[i]), entities_at(candidates, order@[i]).len() as int,
            seeded_pattern_entity(seed@, #[trigger] order@[j]), entities_at(candidates, order@[j]).len() as int) by {
            assert(ranks_before(flags@[i], counts@[i] as int, flags@[j], counts@[j] as int));
            assert(flags@[i] == seeded_pattern_entity(seed@, order@[i]));
            assert(flags@[j] == seeded_pattern_entity(seed@, order@[j]));
            assert(counts@[i] == entities_at(candidates, order@[i]).len());
            assert(counts@[j] == entities_at(candidates, order@[j]).len());
        }
        assert(order@.no_duplicates());
    }
    let ss = SearchSpace { entities: order, candidates };
    proof {
        assert(ss.valid(wv, p, t));
    }
    Some(ss)
}

/// Enumerates the bindings of the search space: with `first_only`, stops at the first.
fn products(wv: &Weave, ss: &SearchSpace, p: EntityId, t: EntityId, first_only: bool)
    -> (r: Vec<HashMap<EntityId, EntityId>>)
    requires
        wv.wf(),
        ss.valid(wv, p, t),
    ensures
        forall|j: int| 0 <= j < r@.len() ==> is_match(wv, p, t, (#[trigger] r@[j])@),
        forall|j: int| 0 <= j < r@.len() ==> complete_for(wv, ss, (#[trigger] r@[j])@),
        forall|a: int, b: int| 0 <= a < b < r@.len() ==> (#[trigger] r@[a])@ != (#[trigger] r@[b])@,
        !first_only ==> forall|m: Map<EntityId, EntityId>| #[trigger] complete_for(wv, ss, m) ==> listed(r@, 0, m),
        r@.len() == 0 ==> forall|m: Map<EntityId, EntityId>| !complete_for(wv, ss, m),
{
    let mut ret: Vec<HashMap<EntityId, EntityId>> = Vec::new();
    if ss.entities.len() == 0 {
        let m: HashMap<EntityId, EntityId> = HashMap::new();
        proof {
            assert forall|y: EntityId| #[trigger] m@.contains_key(y) <==> down_spec(wv, p as int, y as int) by {
                if down_spec(wv, p as int, y as int) {
                    assert(ss.entities@.contains(y));
                }
            }
            assert forall|mm: Map<EntityId, EntityId>| #[trigger] complete_for(wv, ss, mm) implies listed(seq![m], 0, mm) by {
                assert(mm.dom() =~= m@.dom());
                assert(mm =~= m@);
                assert(seq![m][0]@ == mm);
            }
        }
        ret.push(m);
        proof {
            assert(ret@ == seq![m]);
        }
    } else {
        let mut used: Vec<EntityId> = Vec::new();
        let mut collected: HashMap<EntityId, EntityId> = HashMap::new();
        let stop = extend(wv, ss, p, t, 0, &mut used, &mut collected, &mut ret, first_only);
        proof {
            if !stop {
                assert forall|m: Map<EntityId, EntityId>| #[trigger] complete_for(wv, ss, m) implies listed(ret@, 0, m) by {
                    assert(extends(m, collected@));
                }
            }
            assert forall|m: Map<EntityId, EntityId>| ret@.len() == 0 implies !complete_for(wv, ss, m) by {
                if complete_for(wv, ss, m) {
                    assert(extends(m, collected@));
                    assert(listed(ret@, 0, m));
                }
            }
        }
    }
    ret
}

/// Every binding of the search space's entities, each to one of its candidates,
/// injective and respecting edges.
pub fn generate_products(wv: &Weave, ss: &SearchSpace, p: EntityId, t: EntityId)
    -> (r: Vec<HashMap<EntityId, EntityId>>)
    requires
        wv.wf(),
        ss.valid(wv, p, t),
    ensures
        forall|j: int| 0 <= j < r@.len() ==> is_match(wv, p, t, (#[trigger] r@[j])@),
        forall|j: int| 0 <= j < r@.len() ==> complete_for(wv, ss, (#[trigger] r@[j])@),
        forall|a: int, b: int| 0 <= a < b < r@.len() ==> (#[trigger] r@[a])@ != (#[trigger] r@[b])@,
        forall|m: Map<EntityId, EntityId>| #[trigger] complete_for(wv, ss, m) ==> listed(r@, 0, m),
{
    products(wv, ss, p, t, false)
}

/// The first binding that `generate_products` lists, if any.
pub fn generate_single_product(wv: &Weave, ss: &SearchSpace, p: EntityId, t: EntityId)
    -> (r: Option<HashMap<EntityId, EntityId>>)
    requires
        wv.wf(),
        ss.valid(wv, p, t),
    ensures
        r matches Some(m) ==> is_match(wv, p, t, m@) && complete_for(wv, ss, m@),
        r is None ==> forall|m: Map<EntityId, EntityId>| !complete_for(wv, ss, m),
{
    let mut ret = products(wv, ss, p, t, true);
    if ret.len() > 0 {
        let m = ret.swap_remove(0);
        Some(m)
    } else {
        None
    }
}

/// `m` is a match each of whose images is a candidate of its key under `seed`.
pub open spec fn seeded_match(wv: &Weave, seed: Seq<(EntityId, EntityId)>, p: EntityId, t: EntityId,
    m: Map<EntityId, EntityId>) -> bool {
    &&& is_match(wv, p, t, m)
    &&& forall|y: EntityId| #[trigger] m.contains_key(y) ==> candidate(wv, seed, p, t, y, m[y])
}

/// `m` is a match each of whose images passes the filters of its key.
pub open spec fn filtered_match(wv: &Weave, p: EntityId, t: EntityId, m: Map<EntityId, EntityId>) -> bool {
    &&& is_match(wv, p, t, m)
    &&& forall|y: EntityId| #[trigger] m.contains_key(y) ==> passes(wv, y, m[y])
}

proof fn lemma_filtered_is_seeded(wv: &Weave, seed: Seq<(EntityId, EntityId)>, p: EntityId, t: EntityId,
    m: Map<EntityId, EntityId>)
    requires
        seed.len() == 0,
        filtered_match(wv, p, t, m),
    ensures
        seeded_match(wv, seed, p, t, m),
{
    assert forall|y: EntityId| #[trigger] m.contains_key(y) implies candidate(wv, seed, p, t, y, m[y]) by {
        assert(!seeded_target(seed, m[y]));
        assert(!seeded_pattern_entity(seed, y));
    }
}

/// A seeded match is a binding of the search space built with the same seed.
proof fn lemma_seeded_is_complete(wv: &Weave, ss: &SearchSpace, seed: Seq<(EntityId, EntityId)>, p: EntityId,
    t: EntityId, m: Map<EntityId, EntityId>)
    requires
        ss.valid(wv, p, t),
        forall|e: EntityId, c: EntityId| down_spec(wv, p as int, e as int) ==>
            (entities_at(ss.candidates, e).contains(c) <==> #[trigger] candidate(wv, seed, p, t, e, c)),
        seeded_match(wv, seed, p, t, m),
    ensures
        complete_for(wv, ss, m),
{
    assert forall|y: EntityId| #[trigger] m.contains_key(y) <==> ss.entities@.contains(y) by {}
    assert forall|j: int| 0 <= j < ss.entities@.len() implies
        entities_at(ss.candidates, #[trigger] ss.entities@[j]).contains(m[ss.entities@[j]]) by {
        let e = ss.entities@[j];
        assert(ss.entities@.contains(e));
        assert(m.contains_key(e));
        assert(candidate(wv, seed, p, t, e, m[e]));
    }
}

/// A binding of a search space built with `seed` is a seeded match.
proof fn lemma_complete_is_seeded(wv: &Weave, ss: &SearchSpace, seed: Seq<(EntityId, EntityId)>, p: EntityId,
    t: EntityId, m: Map<EntityId, EntityId>)
    requires
        ss.valid(wv, p, t),
        forall|e: EntityId, c: EntityId| down_spec(wv, p as int, e as int) ==>
            (entities_at(ss.candidates, e).contains(c) <==> #[trigger] candidate(wv, seed, p, t, e, c)),
        is_match(wv, p, t, m),
        complete_for(wv, ss, m),
    ensures
        seeded_match(wv, seed, p, t, m),
{
    assert forall|y: EntityId| #[trigger] m.contains_key(y) implies candidate(wv, seed, p, t, y, m[y]) by {
        assert(ss.entities@.contains(y));
        let j = choose|j: int| 0 <= j < ss.entities@.len() && ss.entities@[j] == y;
        assert(entities_at(ss.candidates, ss.entities@[j]).contains(m[ss.entities@[j]]));
    }
}

/// Every match that the search space of `seed` admits.
pub fn matches_with_seed(wv: &Weave, hoist_pattern: EntityId, hoist_target: EntityId,
    seed: &Vec<(EntityId, EntityId)>) -> (r: Vec<HashMap<EntityId, EntityId>>)
    requires
        wv.wf(),
    ensures
        forall|j: int| 0 <= j < r@.len() ==> seeded_match(wv, seed@, hoist_pattern, hoist_target, (#[trigger] r@[j])@),
        forall|a: int, b: int| 0 <= a < b < r@.len() ==> (#[trigger] r@[a])@ != (#[trigger] r@[b])@,
        forall|m: Map<EntityId, EntityId>| #[trigger] seeded_match(wv, seed@, hoist_pattern, hoist_target, m)
            ==> listed(r@, 0, m),
{
    match prepare_search_space(wv, hoist_pattern, hoist_target, seed) {
        None => {
            proof {
                assert forall|m: Map<EntityId, EntityId>| #[trigger] seeded_match(wv, seed@, hoist_pattern, hoist_target, m)
                    implies listed(Seq::<HashMap<EntityId, EntityId>>::empty(), 0, m) by {
                    let e = choose|e: EntityId| down_spec(wv, hoist_pattern as int, e as int)
                        && forall|c: EntityId| !#[trigger] candidate(wv, seed@, hoist_pattern, hoist_target, e, c);
                    assert(m.contains_key(e));
                    assert(candidate(wv, seed@, hoist_pattern, hoist_target, e, m[e]));
                }
            }
            Vec::new()
        },
        Some(ss) => {
            let r = generate_products(wv, &ss, hoist_pattern, hoist_target);
            proof {
                assert forall|m: Map<EntityId, EntityId>| #[trigger] seeded_match(wv, seed@, hoist_pattern, hoist_target, m)
                    implies listed(r@, 0, m) by {
                    lemma_seeded_is_complete(wv, &ss, seed@, hoist_pattern, hoist_target, m);
                }
                assert forall|j: int| 0 <= j < r@.len() implies seeded_match(wv, seed@, hoist_pattern, hoist_target, (#[trigger] r@[j])@) by {
                    lemma_complete_is_seeded(wv, &ss, seed@, hoist_pattern, hoist_target, r@[j]@);
                }
            }
            r
        },
    }
}

/// Every match of the entities hoisted under `hoist_pattern` among those hoisted under
/// `hoist_target` whose images pass the filters of their keys.
pub fn find_all(wv: &Weave, hoist_pattern: EntityId, hoist_target: EntityId) -> (r: Vec<HashMap<EntityId, EntityId>>)
    requires
        wv.wf(),
    ensures
        forall|j: int| 0 <= j < r@.len() ==> filtered_match(wv, hoist_pattern, hoist_target, (#[trigger] r@[j])@),
        forall|a: int, b: int| 0 <= a < b < r@.len() ==> (#[trigger] r@[a])@ != (#[trigger] r@[b])@,
        forall|m: Map<EntityId, EntityId>| #[trigger] filtered_match(wv, hoist_pattern, hoist_target, m)
            ==> listed(r@, 0, m),
{
    let seed: Vec<(EntityId, EntityId)> = Vec::new();
    let r = matches_with_seed(wv, hoist_pattern, hoist_target, &seed);
    proof {
        assert forall|m: Map<EntityId, EntityId>| #[trigger] filtered_match(wv, hoist_pattern, hoist_target, m)
            implies listed(r@, 0, m) by {
            lemma_filtered_is_seeded(wv, seed@, hoist_pattern, hoist_target, m);
        }
        assert forall|j: int| 0 <= j < r@.len() implies filtered_match(wv, hoist_pattern, hoist_target, (#[trigger] r@[j])@) by {
            let m = r@[j]@;
            assert(seeded_match(wv, seed@, hoist_pattern, hoist_target, m));
            assert forall|y: EntityId| #[trigger] m.contains_key(y) implies passes(wv, y, m[y]) by {
                assert(candidate(wv, seed@, hoist_pattern, hoist_target, y, m[y]));
                assert(!seeded_target(seed@, m[y]));
            }
        }
    }
    r
}

/// A match that `find_all` lists, if there is one.
pub fn find_one(wv: &Weave, hoist_pattern: EntityId, hoist_target: EntityId) -> (r: Option<HashMap<EntityId, EntityId>>)
    requires
        wv.wf(),
    ensures
        r matches Some(m) ==> filtered_match(wv, hoist_pattern, hoist_target, m@),
        r is None ==> forall|m: Map<EntityId, EntityId>| !#[trigger] filtered_match(wv, hoist_pattern, hoist_target, m),
{
    let seed: Vec<(EntityId, EntityId)> = Vec::new();
    match prepare_search_space(wv, hoist_pattern, hoist_target, &seed) {
        None => {
            proof {
                assert forall|m: Map<EntityId, EntityId>| !#[trigger] filtered_match(wv, hoist_pattern, hoist_target, m) by {
                    if filtered_match(wv, hoist_pattern, hoist_target, m) {
                        lemma_filtered_is_seeded(wv, seed@, hoist_pattern, hoist_target, m);
                        let e = choose|e: EntityId| down_spec(wv, hoist_pattern as int, e as int)
                            && forall|c: EntityId| !#[trigger] candidate(wv, seed@, hoist_pattern, hoist_target, e, c);
                        assert(m.contains_key(e));
                        assert(candidate(wv, seed@, hoist_pattern, hoist_target, e, m[e]));
                    }
                }
            }
            None
        },
        Some(ss) => {
            let r = generate_single_product(wv, &ss, hoist_pattern, hoist_target);
            proof {
                if r is Some {
                    let m = r->Some_0@;
                    lemma_complete_is_seeded(wv, &ss, seed@, hoist_pattern, hoist_target, m);
                    assert forall|y: EntityId| #[trigger] m.contains_key(y) implies passes(wv, y, m[y]) by {
                        assert(candidate(wv, seed@, hoist_pattern, hoist_target, y, m[y]));
                        assert(!seeded_target(seed@, m[y]));
                    }
                }
                if r is None {
                    assert forall|m: Map<EntityId, EntityId>| !#[trigger] filtered_match(wv, hoist_pattern, hoist_target, m) by {
                        if filtered_match(wv, hoist_pattern, hoist_target, m) {
                            lemma_filtered_is_seeded(wv, seed@, hoist_pattern, hoist_target, m);
                            lemma_seeded_is_complete(wv, &ss, seed@, hoist_pattern, hoist_target, m);
                        }
                    }
                }
            }
            r
        },
    }
}

/// `new` has a mark on `target`, not live in `old`, that carries `payload` under `dt`
/// (unless a component of `dt` was already recorded for that id).
pub open spec fn annotated(new: &Weave, old: &Weave, target: EntityId, dt: u64, payload: Seq<u8>) -> bool {
    exists|m: EntityId| !old.is_live(m as int) && new.is_live(m as int)
        && #[trigger] new.src_of(m as int) == m && new.tgt_of(m as int) == target
        && (old.component(dt, m) is None ==> new.component(dt, m) == Some(payload))
}

fn require(wv: &mut Weave, entity: EntityId, kind: &str, name: &str)
    requires
        old(wv).wf(),
        old(wv).is_live(entity as int),
        old(wv).room() >= 1,
    ensures
        final(wv).wf(),
        keeps_old(final(wv), old(wv)),
        annotated(final(wv), old(wv), entity, datatype_id_of(kind@), string_payload_spec(name@)),
{
    let payload = string_payload(name);
    let m = annotate(wv, entity, kind, payload.as_slice());
    proof {
        assert(wv.src_of(m as int) == m);
        assert forall|i: int| old(wv).is_live(i) implies #[trigger] wv.agrees_at(old(wv), i) by {}
    }
}

/// Marks the live `entity`, as a pattern entity, so that it matches only entities that
/// carry a component `name`.
pub fn require_component(wv: &mut Weave, entity: EntityId, name: &str)
    requires
        old(wv).wf(),
        old(wv).is_live(entity as int),
        old(wv).room() >= 1,
    ensures
        final(wv).wf(),
        keeps_old(final(wv), old(wv)),
        annotated(final(wv), old(wv), entity, datatype_id_of("With"@), string_payload_spec(name@)),
{
    require(wv, entity, "With", name)
}

/// Marks the live `entity`, as a pattern entity, so that it matches only entities that
/// carry no component `name`.
pub fn require_no_component(wv: &mut Weave, entity: EntityId, name: &str)
    requires
        old(wv).wf(),
        old(wv).is_live(entity as int),
        old(wv).room() >= 1,
    ensures
        final(wv).wf(),
        keeps_old(final(wv), old(wv)),
        annotated(final(wv), old(wv), entity, datatype_id_of("Without"@), string_payload_spec(name@)),
{
    require(wv, entity, "Without", name)
}

} // verus!
