//! Shape operators: edits of motif endpoints, and the hoist triple
//! `subject -(tether)-> anchor ==(arrow)==> guide -(mark)-> object` that stands for
//! "subject contains object".
use vstd::prelude::*;
use crate::store::{EntityId, Weave, datatype_id_of};
use crate::traverse::{Pick, picks, picked_from, down_arrow, down_spec, primary, marks};
use crate::sorted::lemma_bounded_len;

verus! {

/// `x` occurs among the first `n` elements of `s`.
pub open spec fn among(s: Seq<EntityId>, n: int, x: EntityId) -> bool {
    exists|j: int| 0 <= j < n && s[j] == x
}

/// Every entity live in `old` is still live in `new`, with the same endpoints.
pub open spec fn keeps_old(new: &Weave, old: &Weave) -> bool {
    forall|i: int| old.is_live(i) ==> #[trigger] new.agrees_at(old, i)
}

/// Attaches a component to `target` itself.
pub fn markup(wv: &mut Weave, target: EntityId, name: &str, payload: &[u8])
    requires
        old(wv).wf(),
    ensures
        final(wv).wf(),
        final(wv).same_entities(old(wv)),
        forall|d: u64, e: EntityId| #[trigger] final(wv).component(d, e) ==
            (if d == datatype_id_of(name@) && e == target && old(wv).component(d, e) is None {
                Some(payload@)
            } else {
                old(wv).component(d, e)
            }),
{
    wv.add_component_raw(target, name, payload);
}

/// Puts a new mark on the live `target` and attaches the component to the mark.
pub fn annotate(wv: &mut Weave, target: EntityId, name: &str, payload: &[u8]) -> (m: EntityId)
    requires
        old(wv).wf(),
        old(wv).room() >= 1,
        old(wv).is_live(target as int),
    ensures
        final(wv).wf(),
        !old(wv).is_live(m as int),
        final(wv).is_live(m as int),
        final(wv).src_of(m as int) == m,
        final(wv).tgt_of(m as int) == target,
        final(wv).agrees_except(old(wv), m as int),
        final(wv).room() == old(wv).room() - 1,
        final(wv).component(datatype_id_of(name@), m) ==
            (if old(wv).component(datatype_id_of(name@), m) is None {
                Some(payload@)
            } else {
                old(wv).component(datatype_id_of(name@), m)
            }),
{
    let m = wv.new_mark(target);
    let ghost mid = *wv;
    proof {
        Weave::lemma_component_of_same(old(wv), &mid);
    }
    markup(wv, m, name, payload);
    proof {
        assert(wv.agrees_at(&mid, m as int));
        assert forall|i: int| i != m implies #[trigger] wv.agrees_at(old(wv), i) by {
            assert(wv.agrees_at(&mid, i));
            assert(mid.agrees_at(old(wv), i));
        }
    }
    m
}

/// `m` is the mark on `target` with the smallest id that carries a component of `dt`.
pub open spec fn annotation_mark(wv: &Weave, target: EntityId, dt: u64, m: EntityId) -> bool {
    &&& picks(wv, Pick::Marks, target as int, m as int)
    &&& wv.component(dt, m) is Some
    &&& forall|m2: EntityId| #[trigger] picks(wv, Pick::Marks, target as int, m2 as int) && m2 < m
        ==> wv.component(dt, m2) is None
}

/// The mark on `target` with the smallest id that carries a component `name`, if any.
pub fn get_annotation(wv: &Weave, target: EntityId, name: &str) -> (r: Option<EntityId>)
    requires
        wv.wf(),
    ensures
        r is None <==> (forall|m: int| picks(wv, Pick::Marks, target as int, m) ==>
            wv.component(datatype_id_of(name@), m as EntityId) is None),
        r matches Some(m) ==> annotation_mark(wv, target, datatype_id_of(name@), m),
{
    let one = vec![target];
    let ms = marks(wv, one.as_slice());
    let mut k: usize = 0;
    while k < ms.len()
        invariant
            wv.wf(),
            k <= ms@.len(),
            forall|y: EntityId| #[trigger] ms@.contains(y) <==> picked_from(wv, Pick::Marks, one@, y as int),
            one@ == seq![target],
            forall|j: int| 0 <= j < k ==> wv.component(datatype_id_of(name@), #[trigger] ms@[j]) is None,
            crate::sorted::strictly_sorted(ms@),
        decreases ms@.len() - k,
    {
        if wv.has_component(ms[k], name) {
            proof {
                assert(ms@.contains(ms@[k as int]));
                let j = choose|j: int| 0 <= j < one@.len() && #[trigger] picks(wv, Pick::Marks, one@[j] as int, ms@[k as int] as int);
                assert forall|m2: EntityId| #[trigger] picks(wv, Pick::Marks, target as int, m2 as int) && m2 < ms@[k as int]
                    implies wv.component(datatype_id_of(name@), m2) is None by {
                    assert(picks(wv, Pick::Marks, one@[0] as int, m2 as int));
                    assert(ms@.contains(m2));
                    let j2 = choose|j2: int| 0 <= j2 < ms@.len() && ms@[j2] == m2;
                    if j2 >= k {
                        if j2 > k {
                            assert(ms@[k as int] < ms@[j2]);
                        }
                    }
                }
            }
            return Some(ms[k]);
        }
        k = k + 1;
    }
    proof {
        assert forall|m: int| picks(wv, Pick::Marks, target as int, m) implies
            wv.component(datatype_id_of(name@), m as EntityId) is None by {
            assert(picks(wv, Pick::Marks, one@[0] as int, m));
            assert(ms@.contains(m as EntityId));
            let j = choose|j: int| 0 <= j < ms@.len() && ms@[j] == m;
        }
    }
    None
}

/// Sets the source of each of the live `children` to the live `root`.
pub fn parent(wv: &mut Weave, root: EntityId, children: &[EntityId])
    requires
        old(wv).wf(),
        old(wv).is_live(root as int),
        forall|k: int| 0 <= k < children@.len() ==> old(wv).is_live(#[trigger] children@[k] as int),
    ensures
        final(wv).wf(),
        final(wv).same_components(old(wv)),
        final(wv).free_ids() == old(wv).free_ids(),
        forall|i: int| #[trigger] final(wv).is_live(i) == old(wv).is_live(i),
        forall|i: int| old(wv).is_live(i) ==> #[trigger] final(wv).src_of(i) ==
            (if among(children@, children@.len() as int, i as EntityId) { root } else { old(wv).src_of(i) })
            && final(wv).tgt_of(i) == old(wv).tgt_of(i),
{
    let mut k: usize = 0;
    proof {
        old(wv).lemma_same_components_refl();
    }
    while k < children.len()
        invariant
            wv.wf(),
            k <= children@.len(),
            wv.same_components(old(wv)),
            wv.free_ids() == old(wv).free_ids(),
            old(wv).is_live(root as int),
            forall|j: int| 0 <= j < children@.len() ==> old(wv).is_live(#[trigger] children@[j] as int),
            forall|i: int| #[trigger] wv.is_live(i) == old(wv).is_live(i),
            forall|i: int| old(wv).is_live(i) ==> #[trigger] wv.src_of(i) ==
                (if among(children@, k as int, i as EntityId) { root } else { old(wv).src_of(i) })
                && wv.tgt_of(i) == old(wv).tgt_of(i),
        decreases children@.len() - k,
    {
        let c = children[k];
        let ghost before = *wv;
        assert(wv.is_live(c as int) && wv.is_live(root as int));
        wv.change_src(c, root);
        proof {
            Weave::lemma_same_components_trans(old(wv), &before, wv);
            assert forall|i: int| #[trigger] wv.is_live(i) == old(wv).is_live(i) by {
                assert(wv.agrees_at(&before, i) || i == c);
            }
            assert forall|i: int| old(wv).is_live(i) implies #[trigger] wv.src_of(i) ==
                (if among(children@, k + 1, i as EntityId) { root } else { old(wv).src_of(i) })
                && wv.tgt_of(i) == old(wv).tgt_of(i) by {
                assert(wv.agrees_at(&before, i) || i == c);
                if among(children@, k + 1, i as EntityId) && i != c {
                    let j = choose|j: int| 0 <= j < k + 1 && children@[j] == i;
                    assert(among(children@, k as int, i as EntityId));
                }
                if among(children@, k as int, i as EntityId) {
                    let j = choose|j: int| 0 <= j < k && children@[j] == i;
                    assert(among(children@, k + 1, i as EntityId));
                }
                if i == c {
                    assert(among(children@, k + 1, i as EntityId));
                }
            }
        }
        k = k + 1;
    }
    proof {
        assert forall|x: EntityId| among(children@, k as int, x) == children@.contains(x) by {}
    }
}

/// Sets the target of each of the live `children` to the live `center`.
pub fn pivot(wv: &mut Weave, center: EntityId, children: &[EntityId])
    requires
        old(wv).wf(),
        old(wv).is_live(center as int),
        forall|k: int| 0 <= k < children@.len() ==> old(wv).is_live(#[trigger] children@[k] as int),
    ensures
        final(wv).wf(),
        final(wv).same_components(old(wv)),
        final(wv).free_ids() == old(wv).free_ids(),
        forall|i: int| #[trigger] final(wv).is_live(i) == old(wv).is_live(i),
        forall|i: int| old(wv).is_live(i) ==> #[trigger] final(wv).tgt_of(i) ==
            (if among(children@, children@.len() as int, i as EntityId) { center } else { old(wv).tgt_of(i) })
            && final(wv).src_of(i) == old(wv).src_of(i),
{
    let mut k: usize = 0;
    proof {
        old(wv).lemma_same_components_refl();
    }
    while k < children.len()
        invariant
            wv.wf(),
            k <= children@.len(),
            wv.same_components(old(wv)),
            wv.free_ids() == old(wv).free_ids(),
            old(wv).is_live(center as int),
            forall|j: int| 0 <= j < children@.len() ==> old(wv).is_live(#[trigger] children@[j] as int),
            forall|i: int| #[trigger] wv.is_live(i) == old(wv).is_live(i),
            forall|i: int| old(wv).is_live(i) ==> #[trigger] wv.tgt_of(i) ==
                (if among(children@, k as int, i as EntityId) { center } else { old(wv).tgt_of(i) })
                && wv.src_of(i) == old(wv).src_of(i),
        decreases children@.len() - k,
    {
        let c = children[k];
        let ghost before = *wv;
        assert(wv.is_live(c as int) && wv.is_live(center as int));
        wv.change_tgt(c, center);
        proof {
            Weave::lemma_same_components_trans(old(wv), &before, wv);
            assert forall|i: int| #[trigger] wv.is_live(i) == old(wv).is_live(i) by {
                assert(wv.agrees_at(&before, i) || i == c);
            }
            assert forall|i: int| old(wv).is_live(i) implies #[trigger] wv.tgt_of(i) ==
                (if among(children@, k + 1, i as EntityId) { center } else { old(wv).tgt_of(i) })
                && wv.src_of(i) == old(wv).src_of(i) by {
                assert(wv.agrees_at(&before, i) || i == c);
                if among(children@, k + 1, i as EntityId) && i != c {
                    let j = choose|j: int| 0 <= j < k + 1 && children@[j] == i;
                    assert(among(children@, k as int, i as EntityId));
                }
                if among(children@, k as int, i as EntityId) {
                    let j = choose|j: int| 0 <= j < k && children@[j] == i;
                    assert(among(children@, k + 1, i as EntityId));
                }
                if i == c {
                    assert(among(children@, k + 1, i as EntityId));
                }
            }
        }
        k = k + 1;
    }
    proof {
        assert forall|x: EntityId| among(children@, k as int, x) == children@.contains(x) by {}
    }
}

/// `new` has an arrow from `s` to `t` that was not live in `old`.
pub open spec fn has_new_arrow(new: &Weave, old: &Weave, s: EntityId, t: EntityId) -> bool {
    exists|x: int| !old.is_live(x) && new.is_live(x) && #[trigger] new.src_of(x) == s && new.tgt_of(x) == t
}

proof fn lemma_keeps_old_trans(a: &Weave, b: &Weave, c: &Weave)
    requires
        keeps_old(b, a),
        keeps_old(c, b),
    ensures
        keeps_old(c, a),
{
    assert forall|i: int| a.is_live(i) implies #[trigger] c.agrees_at(a, i) by {
        assert(b.agrees_at(a, i));
        assert(c.agrees_at(b, i));
    }
}

proof fn lemma_keeps_old_fresh(old: &Weave, new: &Weave, id: int)
    requires
        new.agrees_except(old, id),
        !old.is_live(id),
    ensures
        keeps_old(new, old),
{
    assert forall|i: int| old.is_live(i) implies #[trigger] new.agrees_at(old, i) by {}
}

/// What is hoisted under `s` stays hoisted while entities are only added.
proof fn lemma_down_kept(w: &Weave, w2: &Weave, s: int, o: int)
    requires
        w.wf(),
        keeps_old(w2, w),
        down_spec(w, s, o),
    ensures
        down_spec(w2, s, o),
{
    let x = choose|x: int| #[trigger] down_arrow(w, s, x) && w.tgt_of(w.tgt_of(x) as int) == o;
    let t = choose|t: int| picks(w, Pick::Tethers, s, t) && #[trigger] picks(w, Pick::ArrowsOut, t, x);
    let g = w.tgt_of(x) as int;
    assert(w.is_live(g));
    assert(w2.agrees_at(w, x));
    assert(w2.agrees_at(w, t));
    assert(w2.agrees_at(w, g));
    assert(picks(w2, Pick::Tethers, s, t));
    assert(picks(w2, Pick::ArrowsOut, t, x));
    assert(down_arrow(w2, s, x));
}

/// Adds an arrow from the live `source` to each of the live `targets`.
pub fn connect(wv: &mut Weave, source: EntityId, targets: &[EntityId])
    requires
        old(wv).wf(),
        old(wv).is_live(source as int),
        forall|k: int| 0 <= k < targets@.len() ==> old(wv).is_live(#[trigger] targets@[k] as int),
        old(wv).room() >= targets@.len(),
    ensures
        final(wv).wf(),
        keeps_old(final(wv), old(wv)),
        forall|k: int| 0 <= k < targets@.len() ==> has_new_arrow(final(wv), old(wv), source, #[trigger] targets@[k]),
{
    let mut k: usize = 0;
    proof {
        assert forall|i: int| old(wv).is_live(i) implies #[trigger] wv.agrees_at(old(wv), i) by {}
    }
    while k < targets.len()
        invariant
            wv.wf(),
            k <= targets@.len(),
            keeps_old(wv, old(wv)),
            wv.room() + k == old(wv).room(),
            old(wv).room() >= targets@.len(),
            old(wv).is_live(source as int),
            forall|j: int| 0 <= j < targets@.len() ==> old(wv).is_live(#[trigger] targets@[j] as int),
            forall|j: int| 0 <= j < k ==> has_new_arrow(wv, old(wv), source, #[trigger] targets@[j]),
        decreases targets@.len() - k,
    {
        let ghost before = *wv;
        let t = targets[k];
        assert(wv.agrees_at(old(wv), source as int));
        assert(wv.agrees_at(old(wv), t as int));
        let x = wv.new_arrow(source, t);
        proof {
            lemma_keeps_old_fresh(&before, wv, x as int);
            lemma_keeps_old_trans(old(wv), &before, wv);
            assert(!old(wv).is_live(x as int)) by {
                if old(wv).is_live(x as int) {
                    assert(before.agrees_at(old(wv), x as int));
                }
            }
            assert forall|j: int| 0 <= j < k + 1 implies has_new_arrow(wv, old(wv), source, #[trigger] targets@[j]) by {
                if j < k {
                    let y = choose|y: int| !old(wv).is_live(y) && before.is_live(y) && #[trigger] before.src_of(y) == source
                        && before.tgt_of(y) == targets@[j];
                    assert(wv.agrees_at(&before, y));
                } else {
                    assert(wv.src_of(x as int) == source);
                }
            }
        }
        k = k + 1;
    }
}

/// `x` is an arrow that hoisting under `s` created: fresh, from a fresh tether on `s` to a
/// fresh mark on a knot or arrow among the dependents of `objects` in `old`.
pub open spec fn hoist_arrow(new: &Weave, old: &Weave, s: EntityId, objects: Seq<EntityId>, x: int) -> bool {
    let t = new.src_of(x) as int;
    let g = new.tgt_of(x) as int;
    &&& !old.is_live(x) && new.is_live(x)
    &&& !old.is_live(t) && new.is_live(t) && new.src_of(t) == s && new.tgt_of(t) == t
    &&& !old.is_live(g) && new.is_live(g) && new.src_of(g) == g
    &&& picked_from(old, Pick::Primary, objects, new.tgt_of(g) as int)
    &&& t != x && g != x && t != g
}

/// `i` is one of the entities that hoisting under `s` created.
pub open spec fn hoist_part(new: &Weave, old: &Weave, s: EntityId, objects: Seq<EntityId>, i: int) -> bool {
    exists|x: int| #[trigger] hoist_arrow(new, old, s, objects, x)
        && (i == x || i == new.src_of(x) as int || i == new.tgt_of(x) as int)
}

/// `i` is one of the first `n` arrows of `hs`, or the tether it leaves, or the mark it
/// enters.
pub open spec fn triple_of(w: &Weave, hs: Seq<int>, n: int, i: int) -> bool {
    exists|j: int| 0 <= j < n && (i == #[trigger] hs[j] || i == w.src_of(hs[j]) as int || i == w.tgt_of(hs[j]) as int)
}

/// A hoist arrow is one of those recorded in `hs`.
proof fn lemma_hoist_recorded(old: &Weave, w: &Weave, s: EntityId, objects: Seq<EntityId>, hs: Seq<int>, x: int) -> (j: int)
    requires
        forall|j: int| 0 <= j < hs.len() ==> hoist_arrow(w, old, s, objects, #[trigger] hs[j]),
        forall|i: int| w.is_live(i) && !old.is_live(i) ==> #[trigger] triple_of(w, hs, hs.len() as int, i),
        hoist_arrow(w, old, s, objects, x),
    ensures
        0 <= j < hs.len(),
        hs[j] == x,
{
    assert(triple_of(w, hs, hs.len() as int, x));
    let j = choose|j: int| 0 <= j < hs.len() && (x == #[trigger] hs[j] || x == w.src_of(hs[j]) as int || x == w.tgt_of(hs[j]) as int);
    assert(hoist_arrow(w, old, s, objects, hs[j]));
    if x != hs[j] {
        if x == w.src_of(hs[j]) as int {
            assert(w.tgt_of(x) == x as EntityId);
        } else {
            assert(w.src_of(x) == x as EntityId);
        }
    }
    j
}

proof fn lemma_hoist_arrow_kept(old: &Weave, w1: &Weave, w2: &Weave, c: int, s: EntityId, objects: Seq<EntityId>, x: int)
    requires
        w2.agrees_except(w1, c),
        !w1.is_live(c),
        hoist_arrow(w1, old, s, objects, x),
    ensures
        hoist_arrow(w2, old, s, objects, x),
        w2.src_of(x) == w1.src_of(x),
        w2.tgt_of(x) == w1.tgt_of(x),
{
    assert(w2.agrees_at(w1, x));
    assert(w2.agrees_at(w1, w1.src_of(x) as int));
    assert(w2.agrees_at(w1, w1.tgt_of(x) as int));
}

/// Hoists each knot or arrow among the dependents of `objects` under the live `subject`:
/// for each such `o`, a tether from `subject`, a mark on `o`, and an arrow between them.
pub fn hoist(wv: &mut Weave, subject: EntityId, objects: &[EntityId])
    requires
        old(wv).wf(),
        old(wv).is_live(subject as int),
        old(wv).room() >= 3 * old(wv).cap(),
    ensures
        final(wv).wf(),
        keeps_old(final(wv), old(wv)),
        forall|o: int| #[trigger] picked_from(old(wv), Pick::Primary, objects@, o) ==> down_spec(final(wv), subject as int, o),
        forall|i: int| final(wv).is_live(i) && !old(wv).is_live(i) ==> #[trigger] hoist_part(final(wv), old(wv), subject, objects@, i),
        forall|y: int| #[trigger] down_spec(final(wv), subject as int, y) <==>
            (down_spec(old(wv), subject as int, y) || picked_from(old(wv), Pick::Primary, objects@, y)),
        forall|x1: int, x2: int| #[trigger] hoist_arrow(final(wv), old(wv), subject, objects@, x1)
            && #[trigger] hoist_arrow(final(wv), old(wv), subject, objects@, x2)
            && final(wv).tgt_of(final(wv).tgt_of(x1) as int) == final(wv).tgt_of(final(wv).tgt_of(x2) as int) ==> x1 == x2,
{
    let ghost mut hs: Seq<int> = Seq::empty();
    let prims = primary(wv, objects);
    proof {
        assert(prims@.no_duplicates()) by {
            assert forall|a: int, b: int| 0 <= a < b < prims@.len() implies prims@[a] != prims@[b] by {}
        }
        assert forall|k: int| 0 <= k < prims@.len() implies (#[trigger] prims@[k]) < wv.cap() by {
            assert(prims@.contains(prims@[k]));
            let j = choose|j: int| 0 <= j < objects@.len() && #[trigger] picks(wv, Pick::Primary, objects@[j] as int, prims@[k] as int);
        }
        lemma_bounded_len(prims@, wv.cap());
        assert forall|i: int| old(wv).is_live(i) implies #[trigger] wv.agrees_at(old(wv), i) by {}
    }
    let mut k: usize = 0;
    while k < prims.len()
        invariant
            wv.wf(),
            k <= prims@.len(),
            prims@.len() <= old(wv).cap(),
            keeps_old(wv, old(wv)),
            wv.room() + 3 * k == old(wv).room(),
            old(wv).room() >= 3 * old(wv).cap(),
            old(wv).is_live(subject as int),
            forall|y: EntityId| #[trigger] prims@.contains(y) <==> picked_from(old(wv), Pick::Primary, objects@, y as int),
            forall|j: int| 0 <= j < k ==> down_spec(wv, subject as int, #[trigger] prims@[j] as int),
            forall|i: int| wv.is_live(i) && !old(wv).is_live(i) ==> #[trigger] hoist_part(wv, old(wv), subject, objects@, i),
            prims@.no_duplicates(),
            hs.len() == k,
            forall|j: int| 0 <= j < k ==> hoist_arrow(wv, old(wv), subject, objects@, #[trigger] hs[j])
                && wv.tgt_of(wv.tgt_of(hs[j]) as int) == prims@[j],
            forall|i: int| wv.is_live(i) && !old(wv).is_live(i) ==> #[trigger] triple_of(wv, hs, k as int, i),
        decreases prims@.len() - k,
    {
        let ghost before = *wv;
        let o = prims[k];
        proof {
            assert(prims@.contains(o));
            let j = choose|j: int| 0 <= j < objects@.len() && #[trigger] picks(old(wv), Pick::Primary, objects@[j] as int, o as int);
            assert(wv.agrees_at(old(wv), o as int));
            assert(wv.agrees_at(old(wv), subject as int));
        }
        let anchor = wv.new_tether(subject);
        let ghost w1 = *wv;
        assert(w1.agrees_at(&before, o as int));
        let guide = wv.new_mark(o);
        let ghost w2 = *wv;
        assert(w2.agrees_at(&w1, anchor as int));
        let arrow = wv.new_arrow(anchor, guide);
        proof {
            lemma_keeps_old_fresh(&before, &w1, anchor as int);
            lemma_keeps_old_fresh(&w1, &w2, guide as int);
            lemma_keeps_old_fresh(&w2, wv, arrow as int);
            lemma_keeps_old_trans(&before, &w1, &w2);
            lemma_keeps_old_trans(&before, &w2, wv);
            lemma_keeps_old_trans(old(wv), &before, wv);
            assert(wv.agrees_at(&w2, guide as int));
            assert(wv.agrees_at(&w2, anchor as int));
            assert(wv.agrees_at(&w1, anchor as int));
            assert(wv.agrees_at(&before, subject as int));
            assert(picks(wv, Pick::Tethers, subject as int, anchor as int));
            assert(picks(wv, Pick::ArrowsOut, anchor as int, arrow as int));
            assert(down_arrow(wv, subject as int, arrow as int));
            assert(down_spec(wv, subject as int, o as int));
            assert forall|j: int| 0 <= j < k + 1 implies down_spec(wv, subject as int, #[trigger] prims@[j] as int) by {
                if j < k {
                    lemma_down_kept(&before, wv, subject as int, prims@[j] as int);
                }
            }
            assert(!before.is_live(anchor as int));
            assert(!w1.is_live(guide as int));
            assert(!w2.is_live(arrow as int));
            assert(!old(wv).is_live(anchor as int)) by {
                if old(wv).is_live(anchor as int) { assert(before.agrees_at(old(wv), anchor as int)); }
            }
            assert(!old(wv).is_live(guide as int)) by {
                if old(wv).is_live(guide as int) {
                    assert(before.agrees_at(old(wv), guide as int));
                    assert(w1.agrees_at(&before, guide as int));
                }
            }
            assert(!old(wv).is_live(arrow as int)) by {
                if old(wv).is_live(arrow as int) {
                    assert(before.agrees_at(old(wv), arrow as int));
                    assert(w1.agrees_at(&before, arrow as int));
                    assert(w2.agrees_at(&w1, arrow as int));
                }
            }
            assert(picked_from(old(wv), Pick::Primary, objects@, o as int));
            assert(wv.agrees_at(&w2, guide as int));
            assert(hoist_arrow(wv, old(wv), subject, objects@, arrow as int));
            assert forall|i: int| wv.is_live(i) && !old(wv).is_live(i) implies
                #[trigger] hoist_part(wv, old(wv), subject, objects@, i) by {
                if i == arrow as int || i == anchor as int || i == guide as int {
                    assert(hoist_arrow(wv, old(wv), subject, objects@, arrow as int));
                } else {
                    assert(wv.agrees_at(&w2, i));
                    assert(w2.agrees_at(&w1, i));
                    assert(w1.agrees_at(&before, i));
                    assert(before.is_live(i));
                    assert(hoist_part(&before, old(wv), subject, objects@, i));
                    let xj = choose|xj: int| #[trigger] hoist_arrow(&before, old(wv), subject, objects@, xj)
                        && (i == xj || i == before.src_of(xj) as int || i == before.tgt_of(xj) as int);
                    lemma_hoist_arrow_kept(old(wv), &before, &w1, anchor as int, subject, objects@, xj);
                    lemma_hoist_arrow_kept(old(wv), &w1, &w2, guide as int, subject, objects@, xj);
                    lemma_hoist_arrow_kept(old(wv), &w2, wv, arrow as int, subject, objects@, xj);
                }
            }
            let hs0 = hs;
            hs = hs.push(arrow as int);
            assert forall|j: int| 0 <= j < k + 1 implies hoist_arrow(wv, old(wv), subject, objects@, #[trigger] hs[j])
                && wv.tgt_of(wv.tgt_of(hs[j]) as int) == prims@[j] by {
                if j < k {
                    assert(hs[j] == hs0[j]);
                    let gj = before.tgt_of(hs0[j]) as int;
                    lemma_hoist_arrow_kept(old(wv), &before, &w1, anchor as int, subject, objects@, hs0[j]);
                    lemma_hoist_arrow_kept(old(wv), &w1, &w2, guide as int, subject, objects@, hs0[j]);
                    lemma_hoist_arrow_kept(old(wv), &w2, wv, arrow as int, subject, objects@, hs0[j]);
                    assert(before.is_live(gj));
                    assert(w1.agrees_at(&before, gj));
                    assert(w2.agrees_at(&w1, gj));
                    assert(wv.agrees_at(&w2, gj));
                }
            }
            assert forall|i: int| wv.is_live(i) && !old(wv).is_live(i) implies #[trigger] triple_of(wv, hs, k + 1, i) by {
                if i == arrow as int || i == anchor as int || i == guide as int {
                    assert(hs[k as int] == arrow as int);
                } else {
                    assert(wv.agrees_at(&w2, i));
                    assert(w2.agrees_at(&w1, i));
                    assert(w1.agrees_at(&before, i));
                    assert(triple_of(&before, hs0, k as int, i));
                    let j = choose|j: int| 0 <= j < k && (i == #[trigger] hs0[j] || i == before.src_of(hs0[j]) as int
                        || i == before.tgt_of(hs0[j]) as int);
                    assert(hs[j] == hs0[j]);
                    lemma_hoist_arrow_kept(old(wv), &before, &w1, anchor as int, subject, objects@, hs0[j]);
                    lemma_hoist_arrow_kept(old(wv), &w1, &w2, guide as int, subject, objects@, hs0[j]);
                    lemma_hoist_arrow_kept(old(wv), &w2, wv, arrow as int, subject, objects@, hs0[j]);
                }
            }
        }
        k = k + 1;
    }
    proof {
        assert forall|o: int| #[trigger] picked_from(old(wv), Pick::Primary, objects@, o) implies down_spec(wv, subject as int, o) by {
            let y = choose|j: int| 0 <= j < objects@.len() && #[trigger] picks(old(wv), Pick::Primary, objects@[j] as int, o);
            assert(old(wv).is_live(o));
            assert(prims@.contains(o as EntityId));
            let j = choose|j: int| 0 <= j < prims@.len() && prims@[j] == o;
        }
        assert forall|y: int| #[trigger] down_spec(wv, subject as int, y) implies
            (down_spec(old(wv), subject as int, y) || picked_from(old(wv), Pick::Primary, objects@, y)) by {
            lemma_down_from(old(wv), wv, subject, objects@, y);
        }
        assert forall|y: int| down_spec(old(wv), subject as int, y) implies #[trigger] down_spec(wv, subject as int, y) by {
            lemma_down_kept(old(wv), wv, subject as int, y);
        }
        assert forall|x1: int, x2: int| #[trigger] hoist_arrow(wv, old(wv), subject, objects@, x1)
            && #[trigger] hoist_arrow(wv, old(wv), subject, objects@, x2)
            && wv.tgt_of(wv.tgt_of(x1) as int) == wv.tgt_of(wv.tgt_of(x2) as int) implies x1 == x2 by {
            let j1 = lemma_hoist_recorded(old(wv), wv, subject, objects@, hs, x1);
            let j2 = lemma_hoist_recorded(old(wv), wv, subject, objects@, hs, x2);
            assert(prims@[j1] == prims@[j2]);
            if j1 != j2 {
                assert(prims@[j1] != prims@[j2]);
            }
        }
    }
}

/// After a hoist, what is hoisted under `s` was hoisted there before or is a new object.
proof fn lemma_down_from(old: &Weave, new: &Weave, s: EntityId, objects: Seq<EntityId>, y: int)
    requires
        old.wf(),
        new.wf(),
        keeps_old(new, old),
        forall|i: int| new.is_live(i) && !old.is_live(i) ==> #[trigger] hoist_part(new, old, s, objects, i),
        down_spec(new, s as int, y),
    ensures
        down_spec(old, s as int, y) || picked_from(old, Pick::Primary, objects, y),
{
    let a = choose|a: int| #[trigger] down_arrow(new, s as int, a) && new.tgt_of(new.tgt_of(a) as int) == y;
    let t = choose|t: int| picks(new, Pick::Tethers, s as int, t) && #[trigger] picks(new, Pick::ArrowsOut, t, a);
    if old.is_live(a) {
        assert(new.agrees_at(old, a));
        let t0 = old.src_of(a) as int;
        let g0 = old.tgt_of(a) as int;
        assert(old.is_live(t0) && old.is_live(g0));
        assert(new.agrees_at(old, t0));
        assert(new.agrees_at(old, g0));
        assert(picks(old, Pick::Tethers, s as int, t0));
        assert(picks(old, Pick::ArrowsOut, t0, a));
        assert(down_arrow(old, s as int, a));
    } else {
        assert(new.is_live(a));
        assert(hoist_part(new, old, s, objects, a));
        let x = choose|x: int| #[trigger] hoist_arrow(new, old, s, objects, x)
            && (a == x || a == new.src_of(x) as int || a == new.tgt_of(x) as int);
        if a == x {
        } else if a == new.src_of(x) as int {
            assert(new.tgt_of(a) == a);
        } else {
            assert(new.src_of(a) == a);
        }
    }
}

/// In `new`, a fresh arrow leaves `a` for a fresh mark on the target that `a` had in `old`.
pub open spec fn lifted(new: &Weave, old: &Weave, a: EntityId) -> bool {
    exists|x: int| #[trigger] new.src_of(x) == a && lift_arrow(new, old, a, x)
}

/// `x` is the arrow that lifting `a` created: fresh, from `a` to a fresh mark on the
/// target that `a` had in `old`.
pub open spec fn lift_arrow(new: &Weave, old: &Weave, a: EntityId, x: int) -> bool {
    let g = new.tgt_of(x) as int;
    &&& !old.is_live(x)
    &&& new.is_live(x)
    &&& new.src_of(x) == a
    &&& !old.is_live(g)
    &&& new.is_live(g)
    &&& new.is_mark_spec(g)
    &&& new.tgt_of(g) == old.tgt_of(a as int)
}

/// `i` is one of the entities that lifting the first `n` of `arrows` created: a lift
/// arrow or the mark it enters.
pub open spec fn lift_part(new: &Weave, old: &Weave, arrows: Seq<EntityId>, n: int, i: int) -> bool {
    exists|k: int, x: int| 0 <= k < n && #[trigger] lift_arrow(new, old, arrows[k], x)
        && (i == x || i == new.tgt_of(x) as int)
}

/// `i` is one of the first `n` arrows of `xs`, or the mark one of them enters.
pub open spec fn made_by(w: &Weave, xs: Seq<int>, n: int, i: int) -> bool {
    exists|j: int| 0 <= j < n && (i == #[trigger] xs[j] || i == w.tgt_of(xs[j]) as int)
}

/// A lift arrow of the `kk`-th lifted arrow is the one recorded for it.
proof fn lemma_lift_unique(old: &Weave, w: &Weave, arrows: Seq<EntityId>, xs: Seq<int>, kk: int, x1: int)
    requires
        arrows.no_duplicates(),
        xs.len() == arrows.len(),
        0 <= kk < arrows.len(),
        forall|j: int| 0 <= j < arrows.len() ==> old.is_live(#[trigger] arrows[j] as int),
        forall|j: int| 0 <= j < xs.len() ==> lift_arrow(w, old, arrows[j], #[trigger] xs[j]),
        forall|i: int| w.is_live(i) && !old.is_live(i) ==> #[trigger] made_by(w, xs, xs.len() as int, i),
        lift_arrow(w, old, arrows[kk], x1),
    ensures
        x1 == xs[kk],
{
    assert(made_by(w, xs, xs.len() as int, x1));
    let j = choose|j: int| 0 <= j < xs.len() && (x1 == #[trigger] xs[j] || x1 == w.tgt_of(xs[j]) as int);
    assert(lift_arrow(w, old, arrows[j], xs[j]));
    if x1 != xs[j] {
        assert(w.src_of(x1) == x1);
        assert(w.src_of(x1) == arrows[kk]);
        assert(old.is_live(arrows[kk] as int));
    } else {
        assert(arrows[j] == arrows[kk]);
        if j != kk {
            assert(arrows[j] != arrows[kk]);
        }
    }
}

proof fn lemma_lift_arrow_kept(old: &Weave, w1: &Weave, w2: &Weave, c: int, a: EntityId, x: int)
    requires
        w2.agrees_except(w1, c),
        old.is_live(c) || !w1.is_live(c),
        lift_arrow(w1, old, a, x),
    ensures
        lift_arrow(w2, old, a, x),
        w2.tgt_of(x) == w1.tgt_of(x),
{
    let g = w1.tgt_of(x) as int;
    assert(w2.agrees_at(w1, x));
    assert(w2.agrees_at(w1, g));
}

proof fn lemma_lifted_kept(old: &Weave, w1: &Weave, w2: &Weave, c: int, a: EntityId)
    requires
        w2.agrees_except(w1, c),
        old.is_live(c) || !w1.is_live(c),
        lifted(w1, old, a),
    ensures
        lifted(w2, old, a),
{
    let x = choose|x: int| #[trigger] w1.src_of(x) == a && lift_arrow(w1, old, a, x);
    let g = w1.tgt_of(x) as int;
    assert(w2.agrees_at(w1, x));
    assert(w2.agrees_at(w1, g));
    assert(lift_arrow(w2, old, a, x));
}

/// Turns each of the distinct live `arrows` into the tether of a hoist triple: its target
/// becomes itself, and a new arrow leads from it to a new mark on its former target.
pub fn lift(wv: &mut Weave, arrows: &[EntityId])
    requires
        old(wv).wf(),
        arrows@.no_duplicates(),
        forall|k: int| 0 <= k < arrows@.len() ==> old(wv).is_live(#[trigger] arrows@[k] as int)
            && old(wv).is_arrow_spec(arrows@[k] as int),
        old(wv).room() >= 2 * arrows@.len(),
    ensures
        final(wv).wf(),
        forall|i: int| old(wv).is_live(i) ==> #[trigger] final(wv).is_live(i),
        forall|i: int| old(wv).is_live(i) && !arrows@.contains(i as EntityId) ==> #[trigger] final(wv).agrees_at(old(wv), i),
        forall|k: int| 0 <= k < arrows@.len() ==> {
            let a = #[trigger] arrows@[k];
            &&& final(wv).src_of(a as int) == old(wv).src_of(a as int)
            &&& final(wv).tgt_of(a as int) == a
            &&& lifted(final(wv), old(wv), a)
        },
        forall|i: int| final(wv).is_live(i) && !old(wv).is_live(i) ==>
            #[trigger] lift_part(final(wv), old(wv), arrows@, arrows@.len() as int, i),
        forall|k: int, x1: int, x2: int| 0 <= k < arrows@.len()
            && #[trigger] lift_arrow(final(wv), old(wv), arrows@[k], x1)
            && #[trigger] lift_arrow(final(wv), old(wv), arrows@[k], x2) ==> x1 == x2,
        forall|k: int| 0 <= k < arrows@.len() ==> down_spec(final(wv),
            old(wv).src_of(#[trigger] arrows@[k] as int) as int, old(wv).tgt_of(arrows@[k] as int) as int),
{
    let ghost mut xs: Seq<int> = Seq::empty();
    let mut k: usize = 0;
    while k < arrows.len()
        invariant
            wv.wf(),
            old(wv).wf(),
            k <= arrows@.len(),
            arrows@.no_duplicates(),
            forall|j: int| 0 <= j < arrows@.len() ==> old(wv).is_live(#[trigger] arrows@[j] as int)
                && old(wv).is_arrow_spec(arrows@[j] as int),
            wv.room() + 2 * k == old(wv).room(),
            old(wv).room() >= 2 * arrows@.len(),
            forall|i: int| old(wv).is_live(i) ==> #[trigger] wv.is_live(i),
            forall|i: int| old(wv).is_live(i) && !among(arrows@, k as int, i as EntityId) ==> #[trigger] wv.agrees_at(old(wv), i),
            forall|j: int| 0 <= j < k ==> {
                let a = #[trigger] arrows@[j];
                &&& wv.src_of(a as int) == old(wv).src_of(a as int)
                &&& wv.tgt_of(a as int) == a
                &&& lifted(wv, old(wv), a)
            },
            forall|i: int| wv.is_live(i) && !old(wv).is_live(i) ==>
                #[trigger] lift_part(wv, old(wv), arrows@, k as int, i),
            xs.len() == k,
            forall|j: int| 0 <= j < k ==> lift_arrow(wv, old(wv), arrows@[j], #[trigger] xs[j]),
            forall|i: int| wv.is_live(i) && !old(wv).is_live(i) ==> #[trigger] made_by(wv, xs, k as int, i),
        decreases arrows@.len() - k,
    {
        let a = arrows[k];
        let ghost w0 = *wv;
        proof {
            assert(!among(arrows@, k as int, a)) by {
                if among(arrows@, k as int, a) {
                    let j = choose|j: int| 0 <= j < k && arrows@[j] == a;
                    assert(arrows@[k as int] == a);
                }
            }
            assert(wv.agrees_at(old(wv), a as int));
            assert(old(wv).is_live(old(wv).tgt_of(a as int) as int));
            assert(wv.is_live(old(wv).tgt_of(a as int) as int));
        }
        let t = wv.tgt(a);
        wv.change_tgt(a, a);
        let ghost w1 = *wv;
        assert(w1.agrees_at(&w0, t as int) || t == a);
        let g = wv.new_mark(t);
        let ghost w2 = *wv;
        assert(w2.agrees_at(&w1, a as int));
        let x = wv.new_arrow(a, g);
        proof {
            assert(wv.agrees_at(&w2, g as int));
            assert(wv.agrees_at(&w2, a as int));
            assert(!old(wv).is_live(g as int)) by {
                if old(wv).is_live(g as int) {
                    assert(w1.is_live(g as int)) by {
                        assert(w0.is_live(g as int));
                        assert(w1.agrees_at(&w0, g as int) || g == a);
                    }
                }
            }
            assert(!old(wv).is_live(x as int)) by {
                if old(wv).is_live(x as int) {
                    assert(w0.is_live(x as int));
                    assert(w1.agrees_at(&w0, x as int) || x == a);
                    assert(w2.agrees_at(&w1, x as int) || x == g);
                }
            }
            assert(lift_arrow(wv, old(wv), a, x as int));
            assert(wv.src_of(x as int) == a);
            assert forall|i: int| old(wv).is_live(i) implies #[trigger] wv.is_live(i) by {
                assert(w0.is_live(i));
                assert(w1.agrees_at(&w0, i) || i == a);
                assert(w2.agrees_at(&w1, i) || i == g);
                assert(wv.agrees_at(&w2, i) || i == x);
            }
            assert forall|i: int| old(wv).is_live(i) && !among(arrows@, k + 1, i as EntityId) implies
                #[trigger] wv.agrees_at(old(wv), i) by {
                assert(!among(arrows@, k as int, i as EntityId));
                assert(w0.agrees_at(old(wv), i));
                assert(i != a) by {
                    if i == a {
                        assert(arrows@[k as int] == a);
                    }
                }
                assert(w1.agrees_at(&w0, i));
                assert(w2.agrees_at(&w1, i) || i == g);
                assert(wv.agrees_at(&w2, i) || i == x);
            }
            assert forall|j: int| 0 <= j < k + 1 implies {
                let b = #[trigger] arrows@[j];
                &&& wv.src_of(b as int) == old(wv).src_of(b as int)
                &&& wv.tgt_of(b as int) == b
                &&& lifted(wv, old(wv), b)
            } by {
                let b = arrows@[j];
                if j < k {
                    assert(b != a) by {
                        assert(arrows@[k as int] == a);
                    }
                    lemma_lifted_kept(old(wv), &w0, &w1, a as int, b);
                    lemma_lifted_kept(old(wv), &w1, &w2, g as int, b);
                    lemma_lifted_kept(old(wv), &w2, wv, x as int, b);
                    assert(w1.agrees_at(&w0, b as int));
                    assert(w2.agrees_at(&w1, b as int));
                    assert(wv.agrees_at(&w2, b as int));
                } else {
                    assert(b == a);
                }
            }
            assert forall|i: int| wv.is_live(i) && !old(wv).is_live(i) implies
                #[trigger] lift_part(wv, old(wv), arrows@, k + 1, i) by {
                if i == x || i == g {
                    assert(arrows@[k as int] == a);
                    assert(lift_arrow(wv, old(wv), arrows@[k as int], x as int));
                } else {
                    assert(wv.agrees_at(&w2, i));
                    assert(w2.agrees_at(&w1, i));
                    assert(w1.agrees_at(&w0, i) || i == a);
                    assert(w0.is_live(i));
                    assert(lift_part(&w0, old(wv), arrows@, k as int, i));
                    let (j, xj) = choose|j: int, xj: int| 0 <= j < k && #[trigger] lift_arrow(&w0, old(wv), arrows@[j], xj)
                        && (i == xj || i == w0.tgt_of(xj) as int);
                    lemma_lift_arrow_kept(old(wv), &w0, &w1, a as int, arrows@[j], xj);
                    lemma_lift_arrow_kept(old(wv), &w1, &w2, g as int, arrows@[j], xj);
                    lemma_lift_arrow_kept(old(wv), &w2, wv, x as int, arrows@[j], xj);
                    assert(lift_arrow(wv, old(wv), arrows@[j], xj));
                }
            }
            let xs0 = xs;
            xs = xs.push(x as int);
            assert forall|j: int| 0 <= j < k + 1 implies lift_arrow(wv, old(wv), arrows@[j], #[trigger] xs[j]) by {
                if j < k {
                    assert(xs[j] == xs0[j]);
                    lemma_lift_arrow_kept(old(wv), &w0, &w1, a as int, arrows@[j], xs0[j]);
                    lemma_lift_arrow_kept(old(wv), &w1, &w2, g as int, arrows@[j], xs0[j]);
                    lemma_lift_arrow_kept(old(wv), &w2, wv, x as int, arrows@[j], xs0[j]);
                } else {
                    assert(arrows@[j] == a);
                }
            }
            assert forall|i: int| wv.is_live(i) && !old(wv).is_live(i) implies #[trigger] made_by(wv, xs, k + 1, i) by {
                if i == x || i == g {
                    assert(xs[k as int] == x as int);
                } else {
                    assert(wv.agrees_at(&w2, i));
                    assert(w2.agrees_at(&w1, i));
                    assert(w1.agrees_at(&w0, i) || i == a);
                    assert(w0.is_live(i));
                    assert(made_by(&w0, xs0, k as int, i));
                    let j = choose|j: int| 0 <= j < k && (i == #[trigger] xs0[j] || i == w0.tgt_of(xs0[j]) as int);
                    assert(xs[j] == xs0[j]);
                    lemma_lift_arrow_kept(old(wv), &w0, &w1, a as int, arrows@[j], xs0[j]);
                    lemma_lift_arrow_kept(old(wv), &w1, &w2, g as int, arrows@[j], xs0[j]);
                    lemma_lift_arrow_kept(old(wv), &w2, wv, x as int, arrows@[j], xs0[j]);
                }
            }
        }
        k = k + 1;
    }
    proof {
        assert forall|kk: int| 0 <= kk < arrows@.len() implies down_spec(wv,
            old(wv).src_of(#[trigger] arrows@[kk] as int) as int, old(wv).tgt_of(arrows@[kk] as int) as int) by {
            let a = arrows@[kk];
            let x = xs[kk];
            assert(lift_arrow(wv, old(wv), a, x));
            let sa = old(wv).src_of(a as int) as int;
            assert(old(wv).is_arrow_spec(a as int));
            assert(wv.src_of(a as int) == sa && wv.tgt_of(a as int) == a);
            assert(picks(wv, Pick::Tethers, sa, a as int));
            assert(picks(wv, Pick::ArrowsOut, a as int, x));
            assert(down_arrow(wv, sa, x));
        }
        assert forall|kk: int, x1: int, x2: int| 0 <= kk < arrows@.len()
            && #[trigger] lift_arrow(wv, old(wv), arrows@[kk], x1)
            && #[trigger] lift_arrow(wv, old(wv), arrows@[kk], x2) implies x1 == x2 by {
            lemma_lift_unique(old(wv), wv, arrows@, xs, kk, x1);
            lemma_lift_unique(old(wv), wv, arrows@, xs, kk, x2);
        }
        assert forall|i: int| old(wv).is_live(i) && !arrows@.contains(i as EntityId) implies #[trigger] wv.agrees_at(old(wv), i) by {
            if among(arrows@, k as int, i as EntityId) {
                let j = choose|j: int| 0 <= j < k && arrows@[j] == i;
                assert(arrows@.contains(i as EntityId));
            }
        }
    }
}

/// `x` is the arrow of a hoist triple in `w`: it leaves a tether and enters a mark.
pub open spec fn is_triple_arrow(w: &Weave, x: int) -> bool {
    &&& w.is_live(x)
    &&& w.is_arrow_spec(x)
    &&& w.is_tether_spec(w.src_of(x) as int)
    &&& w.is_mark_spec(w.tgt_of(x) as int)
}

/// Between `old` and `new`, entities were only deleted, except that each surviving
/// element of `arrows` now runs from the source of its tether to the target of its mark.
pub open spec fn lowered(new: &Weave, old: &Weave, arrows: Seq<EntityId>) -> bool {
    forall|i: int| #[trigger] new.is_live(i) ==> old.is_live(i) && (if arrows.contains(i as EntityId) {
        new.src_of(i) == old.src_of(old.src_of(i) as int) && new.tgt_of(i) == old.tgt_of(old.tgt_of(i) as int)
    } else {
        new.src_of(i) == old.src_of(i) && new.tgt_of(i) == old.tgt_of(i)
    })
}

/// Lowers the live triple arrow `x`: points it from its tether's source to its mark's
/// target, then deletes the tether and the mark with everything that depends on them.
fn lower_one(wv: &mut Weave, x: EntityId)
    requires
        old(wv).wf(),
        is_triple_arrow(old(wv), x as int),
    ensures
        final(wv).wf(),
        forall|i: int| i != x ==> #[trigger] final(wv).kept_at(old(wv), i),
        !final(wv).is_live(old(wv).src_of(x as int) as int),
        !final(wv).is_live(old(wv).tgt_of(x as int) as int),
        final(wv).is_live(x as int) ==>
            final(wv).src_of(x as int) == old(wv).src_of(old(wv).src_of(x as int) as int)
            && final(wv).tgt_of(x as int) == old(wv).tgt_of(old(wv).tgt_of(x as int) as int),
        lone_triple(old(wv), x) ==> lone_lowered(old(wv), final(wv), x),
{
    let anchor = wv.src(x);
    let guide = wv.tgt(x);
    proof {
        assert(wv.is_live(anchor as int) && wv.is_live(guide as int));
        assert(old(wv).is_live(old(wv).src_of(anchor as int) as int));
        assert(old(wv).is_live(old(wv).tgt_of(guide as int) as int));
    }
    let s = wv.src(anchor);
    let t = wv.tgt(guide);
    wv.change_ends(x, s, t);
    let ghost w1 = *wv;
    wv.delete_cascade(anchor);
    let ghost w2 = *wv;
    wv.delete_cascade(guide);
    proof {
        if lone_triple(old(wv), x) {
            lemma_lone_lowered(old(wv), &w1, &w2, wv, x);
        }
        assert forall|i: int| i != x implies #[trigger] wv.kept_at(old(wv), i) by {
            assert(wv.kept_at(&w2, i));
            assert(w2.kept_at(&w1, i));
            assert(w1.agrees_at(old(wv), i));
        }
        assert(wv.kept_at(&w2, anchor as int));
        assert(wv.kept_at(&w2, x as int));
        assert(w2.kept_at(&w1, x as int));
    }
}

/// Deletes `a` and `g` with everything that depends on them.
fn delete_pair(wv: &mut Weave, a: EntityId, g: EntityId)
    requires
        old(wv).wf(),
    ensures
        final(wv).wf(),
        final(wv).only_removed(old(wv)),
        !final(wv).is_live(a as int),
        !final(wv).is_live(g as int),
{
    let ghost w0 = *wv;
    wv.delete_cascade(a);
    let ghost w1 = *wv;
    wv.delete_cascade(g);
    proof {
        assert forall|i: int| #[trigger] wv.kept_at(&w0, i) by {
            assert(wv.kept_at(&w1, i));
            assert(w1.kept_at(&w0, i));
        }
        assert(wv.kept_at(&w1, a as int));
    }
}

/// `x` is the arrow of a hoist triple whose tether and mark nothing else uses as an
/// endpoint.
pub open spec fn lone_triple(w: &Weave, x: EntityId) -> bool {
    let a = w.src_of(x as int) as int;
    let g = w.tgt_of(x as int) as int;
    &&& is_triple_arrow(w, x as int)
    &&& forall|y: int| #[trigger] w.depends_on(y, a) ==> y == x || y == a
    &&& forall|y: int| #[trigger] w.depends_on(y, g) ==> y == x || y == g
}

/// Lowering the lone triple arrow `x` deleted exactly its tether and its mark, and `x`
/// now runs from the tether's source to the mark's target.
pub open spec fn lone_lowered(old: &Weave, new: &Weave, x: EntityId) -> bool {
    let a = old.src_of(x as int) as int;
    let g = old.tgt_of(x as int) as int;
    &&& new.is_live(x as int)
    &&& new.src_of(x as int) == old.src_of(a)
    &&& new.tgt_of(x as int) == old.tgt_of(g)
    &&& !new.is_live(a)
    &&& !new.is_live(g)
    &&& forall|i: int| #[trigger] old.is_live(i) && i != a && i != g ==> new.is_live(i)
}

/// What only depends on `r` through `r` itself reaches nothing but `r`.
proof fn lemma_reach_only_self(w: &Weave, r: int, y: int)
    requires
        forall|z: int| #[trigger] w.depends_on(z, r) ==> z == r,
        w.reaches(r, y),
    ensures
        y == r,
{
    let path = choose|path: Seq<EntityId>| path.len() >= 1 && path[0] == r && path.last() == y && #[trigger] w.is_chain(path);
    lemma_chain_stays(w, r, path, path.len() as int - 1);
}

proof fn lemma_chain_stays(w: &Weave, r: int, path: Seq<EntityId>, n: int)
    requires
        forall|z: int| #[trigger] w.depends_on(z, r) ==> z == r,
        path.len() >= 1,
        path[0] == r,
        w.is_chain(path),
        0 <= n < path.len(),
    ensures
        path[n] == r,
    decreases n,
{
    if n > 0 {
        lemma_chain_stays(w, r, path, n - 1);
        let k = n - 1;
        assert(w.depends_on(path[k + 1] as int, path[k] as int));
    }
}

/// Lowering a lone triple arrow kills exactly its tether and its mark.
proof fn lemma_lone_lowered(o: &Weave, w1: &Weave, w2: &Weave, w3: &Weave, x: EntityId)
    requires
        o.wf(),
        lone_triple(o, x),
        w1.wf(),
        w1.agrees_except(o, x as int),
        w1.is_live(x as int),
        w1.src_of(x as int) == o.src_of(o.src_of(x as int) as int),
        w1.tgt_of(x as int) == o.tgt_of(o.tgt_of(x as int) as int),
        w2.only_removed(w1),
        !w2.is_live(o.src_of(x as int) as int),
        forall|i: int| w1.is_live(i) && !w2.is_live(i) ==> #[trigger] w1.reaches(o.src_of(x as int) as int, i),
        w3.only_removed(w2),
        !w3.is_live(o.tgt_of(x as int) as int),
        forall|i: int| w2.is_live(i) && !w3.is_live(i) ==> #[trigger] w2.reaches(o.tgt_of(x as int) as int, i),
    ensures
        lone_lowered(o, w3, x),
{
    let a = o.src_of(x as int) as int;
    let g = o.tgt_of(x as int) as int;
    let s = o.src_of(a);
    let t = o.tgt_of(g);
    assert(o.depends_on(x as int, a));
    assert(o.is_tether_spec(a) && o.is_mark_spec(g));
    assert(t != a) by {
        if t == a {
            assert(o.depends_on(g, a));
        }
    }
    assert(s != g) by {
        if s == g {
            assert(o.depends_on(a, g));
        }
    }
    assert forall|z: int| #[trigger] w1.depends_on(z, a) implies z == a by {
        if z != x {
            assert(w1.agrees_at(o, z));
            assert(o.depends_on(z, a));
        }
    }
    assert forall|i: int| o.is_live(i) && i != a implies #[trigger] w2.is_live(i) by {
        assert(w1.agrees_at(o, i) || i == x);
        if !w2.is_live(i) {
            assert(w1.reaches(a, i));
            lemma_reach_only_self(w1, a, i);
        }
    }
    assert(w2.kept_at(w1, x as int));
    assert forall|z: int| #[trigger] w2.depends_on(z, g) implies z == g by {
        assert(w2.kept_at(w1, z));
        if z != x {
            assert(w1.agrees_at(o, z));
            assert(o.depends_on(z, g));
        }
    }
    assert forall|i: int| #[trigger] o.is_live(i) && i != a && i != g implies w3.is_live(i) by {
        assert(w2.is_live(i));
        if !w3.is_live(i) {
            assert(w2.reaches(g, i));
            lemma_reach_only_self(w2, g, i);
        }
    }
    assert(w3.kept_at(w2, x as int));
    assert(w3.kept_at(w2, a));
    assert(x as int != a && x as int != g);
    assert(o.is_live(x as int));
    assert(w3.is_live(x as int));
    assert(w2.is_live(x as int));
}

/// Inverse of the hoist triple: each of the distinct `arrows`, from a tether to a mark,
/// is pointed from the tether's source to the mark's target, and the tether and the mark
/// are deleted with everything that depends on them. An arrow that an earlier deletion
/// removed is passed over.
pub fn lower(wv: &mut Weave, arrows: &[EntityId])
    requires
        old(wv).wf(),
        arrows@.no_duplicates(),
        forall|k: int| 0 <= k < arrows@.len() ==> is_triple_arrow(old(wv), #[trigger] arrows@[k] as int),
    ensures
        final(wv).wf(),
        lowered(final(wv), old(wv), arrows@),
        arrows@.len() == 1 && lone_triple(old(wv), arrows@[0]) ==> lone_lowered(old(wv), final(wv), arrows@[0]),
        forall|k: int| 0 <= k < arrows@.len() ==> !final(wv).is_live(old(wv).src_of(#[trigger] arrows@[k] as int) as int)
            && !final(wv).is_live(old(wv).tgt_of(arrows@[k] as int) as int),
{
    let mut ends: Vec<(EntityId, EntityId)> = Vec::new();
    let mut k: usize = 0;
    while k < arrows.len()
        invariant
            wv.wf(),
            *wv == *old(wv),
            k <= arrows@.len(),
            ends@.len() == k,
            forall|j: int| 0 <= j < arrows@.len() ==> is_triple_arrow(old(wv), #[trigger] arrows@[j] as int),
            forall|j: int| 0 <= j < k ==> #[trigger] ends@[j] == (old(wv).src_of(arrows@[j] as int), old(wv).tgt_of(arrows@[j] as int)),
        decreases arrows@.len() - k,
    {
        let x = arrows[k];
        proof {
            assert(is_triple_arrow(old(wv), arrows@[k as int] as int));
        }
        ends.push((wv.src(x), wv.tgt(x)));
        k = k + 1;
    }
    let mut k: usize = 0;
    while k < arrows.len()
        invariant
            wv.wf(),
            old(wv).wf(),
            k <= arrows@.len(),
            arrows@.no_duplicates(),
            forall|j: int| 0 <= j < arrows@.len() ==> is_triple_arrow(old(wv), #[trigger] arrows@[j] as int),
            k == 0 ==> *wv == *old(wv),
            k >= 1 && arrows@.len() == 1 && lone_triple(old(wv), arrows@[0]) ==> lone_lowered(old(wv), wv, arrows@[0]),
            ends@.len() == arrows@.len(),
            forall|j: int| 0 <= j < arrows@.len() ==> #[trigger] ends@[j] == (old(wv).src_of(arrows@[j] as int), old(wv).tgt_of(arrows@[j] as int)),
            forall|j: int| 0 <= j < k ==> !wv.is_live(old(wv).src_of(#[trigger] arrows@[j] as int) as int)
                && !wv.is_live(old(wv).tgt_of(arrows@[j] as int) as int),
            forall|i: int| #[trigger] wv.is_live(i) ==> old(wv).is_live(i) && (if among(arrows@, k as int, i as EntityId) {
                wv.src_of(i) == old(wv).src_of(old(wv).src_of(i) as int) && wv.tgt_of(i) == old(wv).tgt_of(old(wv).tgt_of(i) as int)
            } else {
                wv.src_of(i) == old(wv).src_of(i) && wv.tgt_of(i) == old(wv).tgt_of(i)
            }),
        decreases arrows@.len() - k,
    {
        let x = arrows[k];
        let ghost w0 = *wv;
        proof {
            assert(!among(arrows@, k as int, x)) by {
                if among(arrows@, k as int, x) {
                    let j = choose|j: int| 0 <= j < k && arrows@[j] == x;
                    assert(arrows@[k as int] == x);
                }
            }
            assert(is_triple_arrow(old(wv), x as int));
        }
        if wv.is_valid(x) {
            proof {
                assert(wv.src_of(x as int) == old(wv).src_of(x as int) && wv.tgt_of(x as int) == old(wv).tgt_of(x as int));
            }
            lower_one(wv, x);
            proof {
                assert forall|j: int| 0 <= j < k + 1 implies !wv.is_live(old(wv).src_of(#[trigger] arrows@[j] as int) as int)
                    && !wv.is_live(old(wv).tgt_of(arrows@[j] as int) as int) by {
                    let aj = old(wv).src_of(arrows@[j] as int) as int;
                    let gj = old(wv).tgt_of(arrows@[j] as int) as int;
                    if j < k {
                        assert(wv.kept_at(&w0, aj) || aj == x);
                        assert(wv.kept_at(&w0, gj) || gj == x);
                        assert(aj != x as int) by {
                            assert(is_triple_arrow(old(wv), arrows@[j] as int));
                        }
                        assert(gj != x as int) by {
                            assert(is_triple_arrow(old(wv), arrows@[j] as int));
                        }
                    } else {
                        assert(arrows@[j] == x);
                    }
                }
                assert forall|i: int| #[trigger] wv.is_live(i) implies old(wv).is_live(i) && (if among(arrows@, k + 1, i as EntityId) {
                    wv.src_of(i) == old(wv).src_of(old(wv).src_of(i) as int) && wv.tgt_of(i) == old(wv).tgt_of(old(wv).tgt_of(i) as int)
                } else {
                    wv.src_of(i) == old(wv).src_of(i) && wv.tgt_of(i) == old(wv).tgt_of(i)
                }) by {
                    if i == x {
                        assert(among(arrows@, k + 1, i as EntityId)) by {
                            assert(arrows@[k as int] == x);
                        }
                        assert(w0.is_live(i));
                    } else {
                        assert(wv.kept_at(&w0, i));
                        assert(w0.is_live(i));
                        if among(arrows@, k + 1, i as EntityId) {
                            let j = choose|j: int| 0 <= j < k + 1 && arrows@[j] == i;
                            assert(j != k);
                            assert(among(arrows@, k as int, i as EntityId));
                        } else {
                            assert(!among(arrows@, k as int, i as EntityId));
                        }
                    }
                }
            }
        } else {
            let (anchor, guide) = ends[k];
            let ghost wa = *wv;
            delete_pair(wv, anchor, guide);
            proof {
                assert forall|j: int| 0 <= j < k + 1 implies !wv.is_live(old(wv).src_of(#[trigger] arrows@[j] as int) as int)
                    && !wv.is_live(old(wv).tgt_of(arrows@[j] as int) as int) by {
                    let aj = old(wv).src_of(arrows@[j] as int) as int;
                    let gj = old(wv).tgt_of(arrows@[j] as int) as int;
                    assert(wv.kept_at(&wa, aj) && wv.kept_at(&wa, gj));
                    if j == k {
                        assert(ends@[j] == (anchor, guide));
                    }
                }
                assert forall|i: int| #[trigger] wv.is_live(i) implies wa.is_live(i) && wv.src_of(i) == wa.src_of(i) && wv.tgt_of(i) == wa.tgt_of(i) by {
                    assert(wv.kept_at(&wa, i));
                }
                assert forall|i: int| #[trigger] wv.is_live(i) implies old(wv).is_live(i) && (if among(arrows@, k + 1, i as EntityId) {
                    wv.src_of(i) == old(wv).src_of(old(wv).src_of(i) as int) && wv.tgt_of(i) == old(wv).tgt_of(old(wv).tgt_of(i) as int)
                } else {
                    wv.src_of(i) == old(wv).src_of(i) && wv.tgt_of(i) == old(wv).tgt_of(i)
                }) by {
                    assert(wa.is_live(i));
                    if among(arrows@, k + 1, i as EntityId) {
                        let j = choose|j: int| 0 <= j < k + 1 && arrows@[j] == i;
                        if j == k {
                            assert(i == x);
                        } else {
                            assert(among(arrows@, k as int, i as EntityId));
                        }
                    }
                }
            }
        }
        k = k + 1;
    }
    proof {
        assert forall|i: int| #[trigger] wv.is_live(i) implies old(wv).is_live(i) && (if arrows@.contains(i as EntityId) {
            wv.src_of(i) == old(wv).src_of(old(wv).src_of(i) as int) && wv.tgt_of(i) == old(wv).tgt_of(old(wv).tgt_of(i) as int)
        } else {
            wv.src_of(i) == old(wv).src_of(i) && wv.tgt_of(i) == old(wv).tgt_of(i)
        }) by {
            if arrows@.contains(i as EntityId) {
                let j = choose|j: int| 0 <= j < arrows@.len() && arrows@[j] == i;
                assert(among(arrows@, k as int, i as EntityId));
            } else {
                if among(arrows@, k as int, i as EntityId) {
                    let j = choose|j: int| 0 <= j < k && arrows@[j] == i;
                    assert(arrows@.contains(i as EntityId));
                }
            }
        }
    }
}

/// Lifting an arrow `a` that nothing uses as an endpoint, then lowering the arrow `x`
/// that the lift created, leaves `x` as an arrow with the endpoints `a` had, and deletes
/// exactly `a` (the tether) and the lift's mark. Premises: what `lift` ensures for
/// `[a]` between `w0` and `w1`, and what `lower` ensures for `[x]` between `w1` and `w2`.
pub proof fn lemma_lower_undoes_lift(w0: &Weave, w1: &Weave, w2: &Weave, a: EntityId, x: EntityId)
    requires
        w0.wf(),
        w1.wf(),
        w0.is_live(a as int),
        w0.is_arrow_spec(a as int),
        forall|y: int| !#[trigger] w0.depends_on(y, a as int),
        forall|i: int| w0.is_live(i) && i != a ==> #[trigger] w1.agrees_at(w0, i),
        w1.is_live(a as int),
        w1.src_of(a as int) == w0.src_of(a as int),
        w1.tgt_of(a as int) == a,
        forall|i: int| w1.is_live(i) && !w0.is_live(i) ==> #[trigger] lift_part(w1, w0, seq![a], 1, i),
        forall|x1: int, x2: int| #[trigger] lift_arrow(w1, w0, a, x1) && #[trigger] lift_arrow(w1, w0, a, x2) ==> x1 == x2,
        lift_arrow(w1, w0, a, x as int),
        lone_triple(w1, x) ==> lone_lowered(w1, w2, x),
    ensures
        w2.is_live(x as int),
        w2.src_of(x as int) == w0.src_of(a as int),
        w2.tgt_of(x as int) == w0.tgt_of(a as int),
        w2.is_arrow_spec(x as int),
        !w2.is_live(a as int),
        !w2.is_live(w1.tgt_of(x as int) as int),
        forall|i: int| #[trigger] w1.is_live(i) && i != a && i != w1.tgt_of(x as int) ==> w2.is_live(i),
{
    let g = w1.tgt_of(x as int) as int;
    let ai = a as int;
    let xi = x as int;
    assert(w1.src_of(xi) == a);
    assert(xi != ai);
    assert(w1.src_of(g) == g as EntityId);
    assert(g != xi);
    assert(w1.is_tether_spec(ai));
    assert(is_triple_arrow(w1, xi));
    assert forall|y: int| #[trigger] w1.depends_on(y, ai) implies y == xi || y == ai by {
        if y != ai {
            if w0.is_live(y) {
                assert(w1.agrees_at(w0, y));
                assert(w0.depends_on(y, ai));
            } else {
                assert(lift_part(w1, w0, seq![a], 1, y));
                let (kk, x1) = choose|kk: int, x1: int| 0 <= kk < 1 && #[trigger] lift_arrow(w1, w0, seq![a][kk], x1)
                    && (y == x1 || y == w1.tgt_of(x1) as int);
                assert(seq![a][kk] == a);
                assert(x1 == xi);
                if y == g {
                    assert(w1.src_of(g) == g as EntityId);
                    assert(w1.tgt_of(g) == w0.tgt_of(ai));
                    assert(w0.tgt_of(ai) != a);
                }
            }
        }
    }
    assert forall|y: int| #[trigger] w1.depends_on(y, g) implies y == xi || y == g by {
        if y != g {
            if w0.is_live(y) {
                if y == ai {
                    assert(w0.is_live(w0.src_of(ai) as int));
                } else {
                    assert(w1.agrees_at(w0, y));
                    assert(w0.is_live(w0.src_of(y) as int) && w0.is_live(w0.tgt_of(y) as int));
                }
            } else {
                assert(lift_part(w1, w0, seq![a], 1, y));
                let (kk, x1) = choose|kk: int, x1: int| 0 <= kk < 1 && #[trigger] lift_arrow(w1, w0, seq![a][kk], x1)
                    && (y == x1 || y == w1.tgt_of(x1) as int);
                assert(seq![a][kk] == a);
                assert(x1 == xi);
            }
        }
    }
    assert(lone_triple(w1, x));
    assert(w2.src_of(xi) != xi) by {
        assert(w0.is_live(w0.src_of(ai) as int));
    }
    assert(w2.tgt_of(xi) != xi) by {
        assert(w0.is_live(w0.tgt_of(ai) as int));
    }
}

} // verus!
