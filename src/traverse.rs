//! Traversals over the reverse index: from entities to their dependents, endpoints, and
//! the objects hoisted under them.
use vstd::prelude::*;
use crate::store::{EntityId, Weave};
use crate::sorted::{strictly_sorted, insert_sorted, remove_sorted, absorb};

verus! {

/// Which dependents a traversal keeps.
#[derive(Clone, Copy, PartialEq, Eq)]
pub enum Pick {
    /// Dependents through either endpoint that are knots or arrows.
    Primary,
    /// Dependents through either endpoint that are marks or tethers.
    Virtual,
    /// Dependents through either endpoint.
    Deps,
    /// Dependents through either endpoint, the entity itself excluded.
    ExternalDeps,
    /// Arrows through either endpoint, the entity itself excluded.
    Arrows,
    /// Arrows that target the entity, the entity itself excluded.
    ArrowsIn,
    /// Arrows that leave the entity, the entity itself excluded.
    ArrowsOut,
    /// Marks on the entity, the entity itself excluded.
    Marks,
    /// Tethers from the entity, the entity itself excluded.
    Tethers,
}

/// `y` is a dependent of `i` of the kind that `p` keeps.
pub open spec fn picks(wv: &Weave, p: Pick, i: int, y: int) -> bool {
    &&& wv.is_live(y)
    &&& match p {
        Pick::Primary => wv.dependent_set(i).contains(y as EntityId) && wv.is_primary_spec(y),
        Pick::Virtual => wv.dependent_set(i).contains(y as EntityId) && (wv.is_mark_spec(y) || wv.is_tether_spec(y)),
        Pick::Deps => wv.dependent_set(i).contains(y as EntityId),
        Pick::ExternalDeps => wv.dependent_set(i).contains(y as EntityId) && y != i,
        Pick::Arrows => wv.dependent_set(i).contains(y as EntityId) && y != i && wv.is_arrow_spec(y),
        Pick::ArrowsIn => wv.tgt_of(y) == i && y != i && wv.is_arrow_spec(y),
        Pick::ArrowsOut => wv.src_of(y) == i && y != i && wv.is_arrow_spec(y),
        Pick::Marks => wv.tgt_of(y) == i && y != i && wv.is_mark_spec(y),
        Pick::Tethers => wv.src_of(y) == i && y != i && wv.is_tether_spec(y),
    }
}

/// `y` is picked by `p` from some element of `it`.
pub open spec fn picked_from(wv: &Weave, p: Pick, it: Seq<EntityId>, y: int) -> bool {
    exists|k: int| 0 <= k < it.len() && #[trigger] picks(wv, p, it[k] as int, y)
}

/// The dependents of `i` that `p` keeps, in increasing order.
fn pick_one(wv: &Weave, p: Pick, i: EntityId) -> (r: Vec<EntityId>)
    requires
        wv.wf(),
    ensures
        strictly_sorted(r@),
        forall|y: EntityId| #[trigger] r@.contains(y) <==> picks(wv, p, i as int, y as int),
{
    let cands = match p {
        Pick::ArrowsIn | Pick::Marks => wv.get_dependents_for_target(i),
        Pick::ArrowsOut | Pick::Tethers => wv.get_dependents_for_source(i),
        _ => wv.get_dependents(i),
    };
    let mut r: Vec<EntityId> = Vec::new();
    let mut k: usize = 0;
    while k < cands.len()
        invariant
            wv.wf(),
            k <= cands@.len(),
            strictly_sorted(r@),
            forall|y: EntityId| #[trigger] cands@.contains(y) ==> wv.is_live(y as int),
            forall|y: EntityId| #[trigger] r@.contains(y) ==> picks(wv, p, i as int, y as int),
            forall|j: int| 0 <= j < k && picks(wv, p, i as int, #[trigger] cands@[j] as int) ==> r@.contains(cands@[j]),
            match p {
                Pick::ArrowsIn | Pick::Marks => forall|y: EntityId| #[trigger] cands@.contains(y) <==> wv.target_set(i as int).contains(y),
                Pick::ArrowsOut | Pick::Tethers => forall|y: EntityId| #[trigger] cands@.contains(y) <==> wv.source_set(i as int).contains(y),
                _ => forall|y: EntityId| #[trigger] cands@.contains(y) <==> wv.dependent_set(i as int).contains(y),
            },
        decreases cands@.len() - k,
    {
        let y = cands[k];
        assert(cands@.contains(y));
        let keep = match p {
            Pick::Primary => wv.is_knot(y) || wv.is_arrow(y),
            Pick::Virtual => wv.is_mark(y) || wv.is_tether(y),
            Pick::Deps => true,
            Pick::ExternalDeps => y != i,
            Pick::Arrows | Pick::ArrowsIn | Pick::ArrowsOut => y != i && wv.is_arrow(y),
            Pick::Marks => y != i && wv.is_mark(y),
            Pick::Tethers => y != i && wv.is_tether(y),
        };
        if keep {
            insert_sorted(&mut r, y);
        }
        k = k + 1;
    }
    proof {
        assert forall|y: EntityId| picks(wv, p, i as int, y as int) implies #[trigger] r@.contains(y) by {
            assert(cands@.contains(y));
            let j = choose|j: int| 0 <= j < cands@.len() && cands@[j] == y;
        }
    }
    r
}

/// The union over `it` of the dependents that `p` keeps, in increasing order.
pub fn gather(wv: &Weave, p: Pick, it: &[EntityId]) -> (r: Vec<EntityId>)
    requires
        wv.wf(),
    ensures
        strictly_sorted(r@),
        forall|y: EntityId| #[trigger] r@.contains(y) <==> picked_from(wv, p, it@, y as int),
{
    let mut r: Vec<EntityId> = Vec::new();
    let mut k: usize = 0;
    while k < it.len()
        invariant
            wv.wf(),
            k <= it@.len(),
            strictly_sorted(r@),
            forall|y: EntityId| #[trigger] r@.contains(y) <==>
                (exists|j: int| 0 <= j < k && #[trigger] picks(wv, p, it@[j] as int, y as int)),
        decreases it@.len() - k,
    {
        let part = pick_one(wv, p, it[k]);
        let mut m: usize = 0;
        let ghost r0 = r@;
        while m < part.len()
            invariant
                m <= part@.len(),
                strictly_sorted(r@),
                forall|y: EntityId| #[trigger] r@.contains(y) <==>
                    (r0.contains(y) || exists|j: int| 0 <= j < m && part@[j] == y),
            decreases part@.len() - m,
        {
            insert_sorted(&mut r, part[m]);
            proof {
                assert forall|y: EntityId| #[trigger] r@.contains(y) <==>
                    (r0.contains(y) || exists|j: int| 0 <= j < m + 1 && part@[j] == y) by {
                    if y == part@[m as int] {
                        assert(exists|j: int| 0 <= j < m + 1 && part@[j] == y);
                    }
                    if exists|j: int| 0 <= j < m + 1 && part@[j] == y {
                        let j = choose|j: int| 0 <= j < m + 1 && part@[j] == y;
                        if j < m {
                            assert(exists|j: int| 0 <= j < m && part@[j] == y);
                        }
                    }
                }
            }
            m = m + 1;
        }
        proof {
            assert forall|y: EntityId| #[trigger] r@.contains(y) <==>
                (exists|j: int| 0 <= j < k + 1 && #[trigger] picks(wv, p, it@[j] as int, y as int)) by {
                if exists|j: int| 0 <= j < m && part@[j] == y {
                    let j = choose|j: int| 0 <= j < m && part@[j] == y;
                    assert(part@.contains(y));
                    assert(picks(wv, p, it@[k as int] as int, y as int));
                }
                if picks(wv, p, it@[k as int] as int, y as int) {
                    assert(part@.contains(y));
                    let j = choose|j: int| 0 <= j < part@.len() && part@[j] == y;
                    assert(exists|j: int| 0 <= j < m && part@[j] == y);
                }
                if exists|j: int| 0 <= j < k + 1 && #[trigger] picks(wv, p, it@[j] as int, y as int) {
                    let j = choose|j: int| 0 <= j < k + 1 && #[trigger] picks(wv, p, it@[j] as int, y as int);
                    if j < k {
                        assert(exists|j: int| 0 <= j < k && #[trigger] picks(wv, p, it@[j] as int, y as int));
                    } else {
                        assert(part@.contains(y));
                        let i2 = choose|i2: int| 0 <= i2 < part@.len() && part@[i2] == y;
                        assert(exists|j: int| 0 <= j < m && part@[j] == y);
                    }
                }
            }
        }
        k = k + 1;
    }
    r
}

/// Knots and arrows among the dependents of `it`.
pub fn primary(wv: &Weave, it: &[EntityId]) -> (r: Vec<EntityId>)
    requires
        wv.wf(),
    ensures
        strictly_sorted(r@),
        forall|y: EntityId| #[trigger] r@.contains(y) <==> picked_from(wv, Pick::Primary, it@, y as int),
{
    gather(wv, Pick::Primary, it)
}

/// Marks and tethers among the dependents of `it`.
pub fn virtuals(wv: &Weave, it: &[EntityId]) -> (r: Vec<EntityId>)
    requires
        wv.wf(),
    ensures
        strictly_sorted(r@),
        forall|y: EntityId| #[trigger] r@.contains(y) <==> picked_from(wv, Pick::Virtual, it@, y as int),
{
    gather(wv, Pick::Virtual, it)
}

/// The dependents of `it`.
pub fn deps(wv: &Weave, it: &[EntityId]) -> (r: Vec<EntityId>)
    requires
        wv.wf(),
    ensures
        strictly_sorted(r@),
        forall|y: EntityId| #[trigger] r@.contains(y) <==> picked_from(wv, Pick::Deps, it@, y as int),
{
    gather(wv, Pick::Deps, it)
}

/// The dependents of each element of `it`, other than that element.
pub fn external_deps(wv: &Weave, it: &[EntityId]) -> (r: Vec<EntityId>)
    requires
        wv.wf(),
    ensures
        strictly_sorted(r@),
        forall|y: EntityId| #[trigger] r@.contains(y) <==> picked_from(wv, Pick::ExternalDeps, it@, y as int),
{
    gather(wv, Pick::ExternalDeps, it)
}

/// Arrows that leave or target an element of `it`.
pub fn arrows(wv: &Weave, it: &[EntityId]) -> (r: Vec<EntityId>)
    requires
        wv.wf(),
    ensures
        strictly_sorted(r@),
        forall|y: EntityId| #[trigger] r@.contains(y) <==> picked_from(wv, Pick::Arrows, it@, y as int),
{
    gather(wv, Pick::Arrows, it)
}

/// Arrows that target an element of `it`.
pub fn arrows_in(wv: &Weave, it: &[EntityId]) -> (r: Vec<EntityId>)
    requires
        wv.wf(),
    ensures
        strictly_sorted(r@),
        forall|y: EntityId| #[trigger] r@.contains(y) <==> picked_from(wv, Pick::ArrowsIn, it@, y as int),
{
    gather(wv, Pick::ArrowsIn, it)
}

/// Arrows that leave an element of `it`.
pub fn arrows_out(wv: &Weave, it: &[EntityId]) -> (r: Vec<EntityId>)
    requires
        wv.wf(),
    ensures
        strictly_sorted(r@),
        forall|y: EntityId| #[trigger] r@.contains(y) <==> picked_from(wv, Pick::ArrowsOut, it@, y as int),
{
    gather(wv, Pick::ArrowsOut, it)
}

/// Marks on an element of `it`.
pub fn marks(wv: &Weave, it: &[EntityId]) -> (r: Vec<EntityId>)
    requires
        wv.wf(),
    ensures
        strictly_sorted(r@),
        forall|y: EntityId| #[trigger] r@.contains(y) <==> picked_from(wv, Pick::Marks, it@, y as int),
{
    gather(wv, Pick::Marks, it)
}

/// Tethers from an element of `it`.
pub fn tethers(wv: &Weave, it: &[EntityId]) -> (r: Vec<EntityId>)
    requires
        wv.wf(),
    ensures
        strictly_sorted(r@),
        forall|y: EntityId| #[trigger] r@.contains(y) <==> picked_from(wv, Pick::Tethers, it@, y as int),
{
    gather(wv, Pick::Tethers, it)
}

/// The tether from `id` with the smallest id, if any.
pub fn tether(wv: &Weave, id: EntityId) -> (r: Option<EntityId>)
    requires
        wv.wf(),
    ensures
        r is None <==> (forall|y: int| !picks(wv, Pick::Tethers, id as int, y)),
        r matches Some(t) ==> picks(wv, Pick::Tethers, id as int, t as int)
            && forall|y: int| picks(wv, Pick::Tethers, id as int, y) ==> t <= y,
{
    let v = pick_one(wv, Pick::Tethers, id);
    if v.len() > 0 {
        proof {
            assert(v@.contains(v@[0]));
            assert forall|y: int| picks(wv, Pick::Tethers, id as int, y) implies v@[0] <= y by {
                assert(v@.contains(y as EntityId));
                let k = choose|k: int| 0 <= k < v@.len() && v@[k] == y;
                if k > 0 {
                    assert(v@[0] < v@[k]);
                }
            }
        }
        Some(v[0])
    } else {
        proof {
            assert forall|y: int| !picks(wv, Pick::Tethers, id as int, y) by {
                if picks(wv, Pick::Tethers, id as int, y) {
                    assert(v@.contains(y as EntityId));
                }
            }
        }
        None
    }
}

/// Arrows that leave an element of `from` and target an element of `to`.
pub fn arrows_between(wv: &Weave, from: &[EntityId], to: &[EntityId]) -> (r: Vec<EntityId>)
    requires
        wv.wf(),
    ensures
        strictly_sorted(r@),
        forall|y: EntityId| #[trigger] r@.contains(y) <==>
            (picked_from(wv, Pick::ArrowsOut, from@, y as int) && picked_from(wv, Pick::ArrowsIn, to@, y as int)),
{
    let outs = arrows_out(wv, from);
    let ins = arrows_in(wv, to);
    let mut r: Vec<EntityId> = Vec::new();
    let mut k: usize = 0;
    while k < outs.len()
        invariant
            k <= outs@.len(),
            strictly_sorted(r@),
            forall|y: EntityId| #[trigger] r@.contains(y) ==> outs@.contains(y) && ins@.contains(y),
            forall|j: int| 0 <= j < k && ins@.contains(#[trigger] outs@[j]) ==> r@.contains(outs@[j]),
        decreases outs@.len() - k,
    {
        let y = outs[k];
        let mut found = false;
        let mut m: usize = 0;
        while m < ins.len()
            invariant
                m <= ins@.len(),
                found <==> (exists|j: int| 0 <= j < m && ins@[j] == y),
            decreases ins@.len() - m,
        {
            if ins[m] == y {
                found = true;
            }
            m = m + 1;
        }
        if found {
            insert_sorted(&mut r, y);
        }
        k = k + 1;
    }
    proof {
        assert forall|y: EntityId| outs@.contains(y) && ins@.contains(y) implies #[trigger] r@.contains(y) by {
            let j = choose|j: int| 0 <= j < outs@.len() && outs@[j] == y;
        }
    }
    r
}

/// The source of each element of `it`, position by position.
pub fn to_src(wv: &Weave, it: &[EntityId]) -> (r: Vec<EntityId>)
    requires
        wv.wf(),
        forall|k: int| 0 <= k < it@.len() ==> wv.is_live(#[trigger] it@[k] as int),
    ensures
        r@.len() == it@.len(),
        forall|k: int| 0 <= k < it@.len() ==> #[trigger] r@[k] == wv.src_of(it@[k] as int),
        forall|k: int| 0 <= k < r@.len() ==> wv.is_live(#[trigger] r@[k] as int),
{
    let mut r: Vec<EntityId> = Vec::new();
    let mut k: usize = 0;
    while k < it.len()
        invariant
            wv.wf(),
            k <= it@.len(),
            forall|j: int| 0 <= j < it@.len() ==> wv.is_live(#[trigger] it@[j] as int),
            r@.len() == k,
            forall|j: int| 0 <= j < k ==> #[trigger] r@[j] == wv.src_of(it@[j] as int),
            forall|j: int| 0 <= j < k ==> wv.is_live(#[trigger] r@[j] as int),
        decreases it@.len() - k,
    {
        let e = it[k];
        assert(wv.is_live(wv.src_of(e as int) as int));
        r.push(wv.src(e));
        k = k + 1;
    }
    r
}

/// The target of each element of `it`, position by position.
pub fn to_tgt(wv: &Weave, it: &[EntityId]) -> (r: Vec<EntityId>)
    requires
        wv.wf(),
        forall|k: int| 0 <= k < it@.len() ==> wv.is_live(#[trigger] it@[k] as int),
    ensures
        r@.len() == it@.len(),
        forall|k: int| 0 <= k < it@.len() ==> #[trigger] r@[k] == wv.tgt_of(it@[k] as int),
        forall|k: int| 0 <= k < r@.len() ==> wv.is_live(#[trigger] r@[k] as int),
{
    let mut r: Vec<EntityId> = Vec::new();
    let mut k: usize = 0;
    while k < it.len()
        invariant
            wv.wf(),
            k <= it@.len(),
            forall|j: int| 0 <= j < it@.len() ==> wv.is_live(#[trigger] it@[j] as int),
            r@.len() == k,
            forall|j: int| 0 <= j < k ==> #[trigger] r@[j] == wv.tgt_of(it@[j] as int),
            forall|j: int| 0 <= j < k ==> wv.is_live(#[trigger] r@[j] as int),
        decreases it@.len() - k,
    {
        let e = it[k];
        assert(wv.is_live(wv.tgt_of(e as int) as int));
        r.push(wv.tgt(e));
        k = k + 1;
    }
    r
}

/// The target of the live `e`.
pub fn other_edge(wv: &Weave, e: EntityId) -> (r: EntityId)
    requires
        wv.wf(),
        wv.is_live(e as int),
    ensures
        r == wv.tgt_of(e as int),
{
    wv.tgt(e)
}

/// Where one step along the live `a` leads: its target, or the source of that target
/// when the target is an arrow.
pub open spec fn hop_spec(wv: &Weave, a: int) -> EntityId {
    let t = wv.tgt_of(a);
    if wv.is_arrow_spec(t as int) { wv.src_of(t as int) } else { t }
}

pub fn hop(wv: &Weave, e: EntityId) -> (r: EntityId)
    requires
        wv.wf(),
        wv.is_live(e as int),
    ensures
        r == hop_spec(wv, e as int),
        wv.is_live(r as int),
{
    let t = wv.tgt(e);
    assert(wv.is_live(t as int));
    if wv.is_arrow(t) {
        assert(wv.is_live(wv.src_of(t as int) as int));
        wv.src(t)
    } else {
        t
    }
}

/// One hop along each arrow that leaves `e`.
pub fn neighbors(wv: &Weave, e: EntityId) -> (r: Vec<EntityId>)
    requires
        wv.wf(),
    ensures
        forall|y: EntityId| #[trigger] r@.contains(y) <==>
            (exists|a: int| picks(wv, Pick::ArrowsOut, e as int, a) && hop_spec(wv, a) == y),
{
    let outs = pick_one(wv, Pick::ArrowsOut, e);
    let mut r: Vec<EntityId> = Vec::new();
    let mut k: usize = 0;
    while k < outs.len()
        invariant
            wv.wf(),
            k <= outs@.len(),
            r@.len() == k,
            forall|y: EntityId| #[trigger] outs@.contains(y) <==> picks(wv, Pick::ArrowsOut, e as int, y as int),
            forall|j: int| 0 <= j < k ==> #[trigger] r@[j] == hop_spec(wv, outs@[j] as int),
        decreases outs@.len() - k,
    {
        assert(outs@.contains(outs@[k as int]));
        r.push(hop(wv, outs[k]));
        k = k + 1;
    }
    proof {
        assert forall|y: EntityId| #[trigger] r@.contains(y) <==>
            (exists|a: int| picks(wv, Pick::ArrowsOut, e as int, a) && hop_spec(wv, a) == y) by {
            if r@.contains(y) {
                let j = choose|j: int| 0 <= j < r@.len() && r@[j] == y;
                assert(outs@.contains(outs@[j]));
                assert(picks(wv, Pick::ArrowsOut, e as int, outs@[j] as int));
            }
            if exists|a: int| picks(wv, Pick::ArrowsOut, e as int, a) && hop_spec(wv, a) == y {
                let a = choose|a: int| picks(wv, Pick::ArrowsOut, e as int, a) && hop_spec(wv, a) == y;
                assert(outs@.contains(a as EntityId));
                let j = choose|j: int| 0 <= j < outs@.len() && outs@[j] == a;
                assert(r@[j] == y);
            }
        }
    }
    r
}

/// The endpoints, other than `e`, of the entities that depend on `e`: sources when
/// `sources` holds, targets otherwise.
pub open spec fn neighbor_spec(wv: &Weave, e: int, sources: bool, y: int) -> bool {
    y != e && exists|d: int| #[trigger] picks(wv, Pick::ExternalDeps, e, d)
        && (if sources { wv.src_of(d) } else { wv.tgt_of(d) }) == y
}

fn step_ends(wv: &Weave, e: EntityId, sources: bool) -> (r: Vec<EntityId>)
    requires
        wv.wf(),
    ensures
        strictly_sorted(r@),
        forall|y: EntityId| #[trigger] r@.contains(y) <==> neighbor_spec(wv, e as int, sources, y as int),
{
    let ds = pick_one(wv, Pick::ExternalDeps, e);
    let mut r: Vec<EntityId> = Vec::new();
    let mut k: usize = 0;
    while k < ds.len()
        invariant
            wv.wf(),
            k <= ds@.len(),
            strictly_sorted(r@),
            forall|y: EntityId| #[trigger] ds@.contains(y) <==> picks(wv, Pick::ExternalDeps, e as int, y as int),
            forall|j: int| 0 <= j < k ==>
                r@.contains(if sources { wv.src_of(#[trigger] ds@[j] as int) } else { wv.tgt_of(ds@[j] as int) }),
            forall|y: EntityId| #[trigger] r@.contains(y) ==>
                exists|d: int| #[trigger] picks(wv, Pick::ExternalDeps, e as int, d)
                    && (if sources { wv.src_of(d) } else { wv.tgt_of(d) }) == y,
        decreases ds@.len() - k,
    {
        let d = ds[k];
        assert(ds@.contains(d));
        let x = if sources { wv.src(d) } else { wv.tgt(d) };
        insert_sorted(&mut r, x);
        k = k + 1;
    }
    let ghost r1 = r@;
    remove_sorted(&mut r, e);
    proof {
        assert forall|y: EntityId| #[trigger] r@.contains(y) <==> neighbor_spec(wv, e as int, sources, y as int) by {
            if neighbor_spec(wv, e as int, sources, y as int) {
                let d = choose|d: int| #[trigger] picks(wv, Pick::ExternalDeps, e as int, d)
                    && (if sources { wv.src_of(d) } else { wv.tgt_of(d) }) == y;
                assert(ds@.contains(d as EntityId));
                let j = choose|j: int| 0 <= j < ds@.len() && ds@[j] == d;
                assert(r1.contains(y));
            }
        }
    }
    r
}

/// The sources, other than `e`, of the entities that depend on `e`, in increasing order.
pub fn prev(wv: &Weave, e: EntityId) -> (r: Vec<EntityId>)
    requires
        wv.wf(),
    ensures
        strictly_sorted(r@),
        forall|y: EntityId| #[trigger] r@.contains(y) <==> neighbor_spec(wv, e as int, true, y as int),
{
    step_ends(wv, e, true)
}

/// The targets, other than `e`, of the entities that depend on `e`, in increasing order.
pub fn next(wv: &Weave, e: EntityId) -> (r: Vec<EntityId>)
    requires
        wv.wf(),
    ensures
        strictly_sorted(r@),
        forall|y: EntityId| #[trigger] r@.contains(y) <==> neighbor_spec(wv, e as int, false, y as int),
{
    step_ends(wv, e, false)
}

fn step_ends_n(wv: &Weave, its: &[EntityId], sources: bool) -> (r: Vec<EntityId>)
    requires
        wv.wf(),
    ensures
        strictly_sorted(r@),
        forall|y: EntityId| #[trigger] r@.contains(y) <==>
            exists|k: int| 0 <= k < its@.len() && #[trigger] neighbor_spec(wv, its@[k] as int, sources, y as int),
{
    let mut r: Vec<EntityId> = Vec::new();
    let mut k: usize = 0;
    while k < its.len()
        invariant
            wv.wf(),
            k <= its@.len(),
            strictly_sorted(r@),
            forall|y: EntityId| #[trigger] r@.contains(y) <==>
                exists|j: int| 0 <= j < k && #[trigger] neighbor_spec(wv, its@[j] as int, sources, y as int),
        decreases its@.len() - k,
    {
        let part = step_ends(wv, its[k], sources);
        let ghost r0 = r@;
        absorb(&mut r, &part);
        proof {
            assert forall|y: EntityId| #[trigger] r@.contains(y) <==>
                exists|j: int| 0 <= j < k + 1 && #[trigger] neighbor_spec(wv, its@[j] as int, sources, y as int) by {
                if exists|j: int| 0 <= j < k + 1 && #[trigger] neighbor_spec(wv, its@[j] as int, sources, y as int) {
                    let j = choose|j: int| 0 <= j < k + 1 && #[trigger] neighbor_spec(wv, its@[j] as int, sources, y as int);
                    if j < k {
                        assert(r0.contains(y));
                    }
                }
            }
        }
        k = k + 1;
    }
    r
}

/// The union of `prev` over `its`, in increasing order.
pub fn prev_n(wv: &Weave, its: &[EntityId]) -> (r: Vec<EntityId>)
    requires
        wv.wf(),
    ensures
        strictly_sorted(r@),
        forall|y: EntityId| #[trigger] r@.contains(y) <==>
            exists|k: int| 0 <= k < its@.len() && #[trigger] neighbor_spec(wv, its@[k] as int, true, y as int),
{
    step_ends_n(wv, its, true)
}

/// The union of `next` over `its`, in increasing order.
pub fn next_n(wv: &Weave, its: &[EntityId]) -> (r: Vec<EntityId>)
    requires
        wv.wf(),
    ensures
        strictly_sorted(r@),
        forall|y: EntityId| #[trigger] r@.contains(y) <==>
            exists|k: int| 0 <= k < its@.len() && #[trigger] neighbor_spec(wv, its@[k] as int, false, y as int),
{
    step_ends_n(wv, its, false)
}

/// `a` is the arrow of a hoist triple under `e`: it leaves a tether from `e`.
pub open spec fn down_arrow(wv: &Weave, e: int, a: int) -> bool {
    exists|t: int| picks(wv, Pick::Tethers, e, t) && #[trigger] picks(wv, Pick::ArrowsOut, t, a)
}

/// `a` is the arrow of a hoist triple over `e`: it targets a mark on `e`.
pub open spec fn up_arrow(wv: &Weave, e: int, a: int) -> bool {
    exists|m: int| picks(wv, Pick::Marks, e, m) && #[trigger] picks(wv, Pick::ArrowsIn, m, a)
}

/// `y` is hoisted under `e`: reached by tether, arrow and mark.
pub open spec fn down_spec(wv: &Weave, e: int, y: int) -> bool {
    exists|a: int| #[trigger] down_arrow(wv, e, a) && wv.tgt_of(wv.tgt_of(a) as int) == y
}

/// `e` is hoisted under `y`.
pub open spec fn up_spec(wv: &Weave, e: int, y: int) -> bool {
    exists|a: int| #[trigger] up_arrow(wv, e, a) && wv.src_of(wv.src_of(a) as int) == y
}

/// The arrows of the hoist triples under `e`, in increasing order.
fn down_arrows(wv: &Weave, e: EntityId) -> (r: Vec<EntityId>)
    requires
        wv.wf(),
    ensures
        strictly_sorted(r@),
        forall|a: EntityId| #[trigger] r@.contains(a) <==> down_arrow(wv, e as int, a as int),
        forall|k: int| 0 <= k < r@.len() ==> wv.is_live(#[trigger] r@[k] as int),
{
    let one = vec![e];
    let ts = gather(wv, Pick::Tethers, one.as_slice());
    let r = gather(wv, Pick::ArrowsOut, ts.as_slice());
    proof {
        assert forall|t: EntityId| #[trigger] ts@.contains(t) <==> picks(wv, Pick::Tethers, e as int, t as int) by {
            if picks(wv, Pick::Tethers, e as int, t as int) {
                assert(picks(wv, Pick::Tethers, one@[0] as int, t as int));
            }
        }
        assert forall|a: EntityId| #[trigger] r@.contains(a) <==> down_arrow(wv, e as int, a as int) by {
            if r@.contains(a) {
                let k = choose|k: int| 0 <= k < ts@.len() && #[trigger] picks(wv, Pick::ArrowsOut, ts@[k] as int, a as int);
                assert(ts@.contains(ts@[k]));
            }
            if down_arrow(wv, e as int, a as int) {
                let t = choose|t: int| picks(wv, Pick::Tethers, e as int, t) && #[trigger] picks(wv, Pick::ArrowsOut, t, a as int);
                assert(ts@.contains(t as EntityId));
                let k = choose|k: int| 0 <= k < ts@.len() && ts@[k] == t;
                assert(picked_from(wv, Pick::ArrowsOut, ts@, a as int));
            }
        }
        assert forall|k: int| 0 <= k < r@.len() implies wv.is_live(#[trigger] r@[k] as int) by {
            assert(r@.contains(r@[k]));
            let j = choose|j: int| 0 <= j < ts@.len() && #[trigger] picks(wv, Pick::ArrowsOut, ts@[j] as int, r@[k] as int);
        }
    }
    r
}

/// The arrows of the hoist triples over `e`, in increasing order.
fn up_arrows(wv: &Weave, e: EntityId) -> (r: Vec<EntityId>)
    requires
        wv.wf(),
    ensures
        strictly_sorted(r@),
        forall|a: EntityId| #[trigger] r@.contains(a) <==> up_arrow(wv, e as int, a as int),
        forall|k: int| 0 <= k < r@.len() ==> wv.is_live(#[trigger] r@[k] as int),
{
    let one = vec![e];
    let ms = gather(wv, Pick::Marks, one.as_slice());
    let r = gather(wv, Pick::ArrowsIn, ms.as_slice());
    proof {
        assert forall|m: EntityId| #[trigger] ms@.contains(m) <==> picks(wv, Pick::Marks, e as int, m as int) by {
            if picks(wv, Pick::Marks, e as int, m as int) {
                assert(picks(wv, Pick::Marks, one@[0] as int, m as int));
            }
        }
        assert forall|a: EntityId| #[trigger] r@.contains(a) <==> up_arrow(wv, e as int, a as int) by {
            if r@.contains(a) {
                let k = choose|k: int| 0 <= k < ms@.len() && #[trigger] picks(wv, Pick::ArrowsIn, ms@[k] as int, a as int);
                assert(ms@.contains(ms@[k]));
            }
            if up_arrow(wv, e as int, a as int) {
                let m = choose|m: int| picks(wv, Pick::Marks, e as int, m) && #[trigger] picks(wv, Pick::ArrowsIn, m, a as int);
                assert(ms@.contains(m as EntityId));
                let k = choose|k: int| 0 <= k < ms@.len() && ms@[k] == m;
                assert(picked_from(wv, Pick::ArrowsIn, ms@, a as int));
            }
        }
        assert forall|k: int| 0 <= k < r@.len() implies wv.is_live(#[trigger] r@[k] as int) by {
            assert(r@.contains(r@[k]));
            let j = choose|j: int| 0 <= j < ms@.len() && #[trigger] picks(wv, Pick::ArrowsIn, ms@[j] as int, r@[k] as int);
        }
    }
    r
}

/// `r` lists, for each arrow of `arrows` in order, the target of its target: the
/// objects of those hoist triples, one per triple.
pub open spec fn per_arrow_down(wv: &Weave, arrows: Seq<EntityId>, r: Seq<EntityId>) -> bool {
    &&& r.len() == arrows.len()
    &&& forall|k: int| 0 <= k < r.len() ==> #[trigger] r[k] == wv.tgt_of(wv.tgt_of(arrows[k] as int) as int)
}

/// `r` lists, for each arrow of `arrows` in order, the source of its source: the
/// subjects of those hoist triples, one per triple.
pub open spec fn per_arrow_up(wv: &Weave, arrows: Seq<EntityId>, r: Seq<EntityId>) -> bool {
    &&& r.len() == arrows.len()
    &&& forall|k: int| 0 <= k < r.len() ==> #[trigger] r[k] == wv.src_of(wv.src_of(arrows[k] as int) as int)
}

/// `arrows` lists, in increasing order, exactly the hoist-triple arrows under `e`.
pub open spec fn down_arrows_of(wv: &Weave, e: int, arrows: Seq<EntityId>) -> bool {
    &&& strictly_sorted(arrows)
    &&& forall|a: EntityId| #[trigger] arrows.contains(a) <==> down_arrow(wv, e, a as int)
}

/// `arrows` lists, in increasing order, exactly the hoist-triple arrows over `e`.
pub open spec fn up_arrows_of(wv: &Weave, e: int, arrows: Seq<EntityId>) -> bool {
    &&& strictly_sorted(arrows)
    &&& forall|a: EntityId| #[trigger] arrows.contains(a) <==> up_arrow(wv, e, a as int)
}

/// The objects hoisted under `e`, one per hoist triple, in the order of the triples'
/// arrows.
pub fn down(wv: &Weave, e: EntityId) -> (r: Vec<EntityId>)
    requires
        wv.wf(),
    ensures
        exists|arrows: Seq<EntityId>| #[trigger] down_arrows_of(wv, e as int, arrows) && per_arrow_down(wv, arrows, r@),
        forall|y: EntityId| #[trigger] r@.contains(y) <==> down_spec(wv, e as int, y as int),
        forall|k: int| 0 <= k < r@.len() ==> wv.is_live(#[trigger] r@[k] as int),
{
    let a = down_arrows(wv, e);
    let g = to_tgt(wv, a.as_slice());
    let r = to_tgt(wv, g.as_slice());
    proof {
        assert forall|y: EntityId| #[trigger] r@.contains(y) <==> down_spec(wv, e as int, y as int) by {
            if r@.contains(y) {
                let k = choose|k: int| 0 <= k < r@.len() && r@[k] == y;
                assert(a@.contains(a@[k]));
                assert(down_arrow(wv, e as int, a@[k] as int));
            }
            if down_spec(wv, e as int, y as int) {
                let x = choose|x: int| #[trigger] down_arrow(wv, e as int, x) && wv.tgt_of(wv.tgt_of(x) as int) == y;
                assert(a@.contains(x as EntityId));
                let k = choose|k: int| 0 <= k < a@.len() && a@[k] == x;
                assert(r@[k] == y);
            }
        }
        assert(down_arrows_of(wv, e as int, a@));
        assert(per_arrow_down(wv, a@, r@));
    }
    r
}

/// The entities that `e` is hoisted under, one per hoist triple, in the order of the
/// triples' arrows.
pub fn up(wv: &Weave, e: EntityId) -> (r: Vec<EntityId>)
    requires
        wv.wf(),
    ensures
        exists|arrows: Seq<EntityId>| #[trigger] up_arrows_of(wv, e as int, arrows) && per_arrow_up(wv, arrows, r@),
        forall|y: EntityId| #[trigger] r@.contains(y) <==> up_spec(wv, e as int, y as int),
        forall|k: int| 0 <= k < r@.len() ==> wv.is_live(#[trigger] r@[k] as int),
{
    let a = up_arrows(wv, e);
    let g = to_src(wv, a.as_slice());
    let r = to_src(wv, g.as_slice());
    proof {
        assert forall|y: EntityId| #[trigger] r@.contains(y) <==> up_spec(wv, e as int, y as int) by {
            if r@.contains(y) {
                let k = choose|k: int| 0 <= k < r@.len() && r@[k] == y;
                assert(a@.contains(a@[k]));
                assert(up_arrow(wv, e as int, a@[k] as int));
            }
            if up_spec(wv, e as int, y as int) {
                let x = choose|x: int| #[trigger] up_arrow(wv, e as int, x) && wv.src_of(wv.src_of(x) as int) == y;
                assert(a@.contains(x as EntityId));
                let k = choose|k: int| 0 <= k < a@.len() && a@[k] == x;
                assert(r@[k] == y);
            }
        }
        assert(up_arrows_of(wv, e as int, a@));
        assert(per_arrow_up(wv, a@, r@));
    }
    r
}

/// The hoist-triple arrow under `e` with the smallest id, if any.
pub fn down_half(wv: &Weave, e: EntityId) -> (r: Option<EntityId>)
    requires
        wv.wf(),
    ensures
        r is None <==> (forall|a: int| !down_arrow(wv, e as int, a)),
        r matches Some(a) ==> down_arrow(wv, e as int, a as int)
            && forall|b: int| down_arrow(wv, e as int, b) ==> a <= b,
{
    let v = down_arrows(wv, e);
    if v.len() > 0 {
        proof {
            assert(v@.contains(v@[0]));
            assert forall|b: int| down_arrow(wv, e as int, b) implies v@[0] <= b by {
                assert(v@.contains(b as EntityId));
                let k = choose|k: int| 0 <= k < v@.len() && v@[k] == b;
                if k > 0 {
                    assert(v@[0] < v@[k]);
                }
            }
        }
        Some(v[0])
    } else {
        proof {
            assert forall|a: int| !down_arrow(wv, e as int, a) by {
                if down_arrow(wv, e as int, a) {
                    assert(v@.contains(a as EntityId));
                }
            }
        }
        None
    }
}

/// The source of the source of the live `arr`.
pub fn up_half(wv: &Weave, arr: EntityId) -> (r: Option<EntityId>)
    requires
        wv.wf(),
        wv.is_live(arr as int),
    ensures
        r == Some(wv.src_of(wv.src_of(arr as int) as int)),
{
    let s = wv.src(arr);
    assert(wv.is_live(s as int));
    Some(wv.src(s))
}

/// The union of `down` over `its`, in increasing order.
pub fn down_n(wv: &Weave, its: &[EntityId]) -> (r: Vec<EntityId>)
    requires
        wv.wf(),
    ensures
        strictly_sorted(r@),
        forall|y: EntityId| #[trigger] r@.contains(y) <==>
            exists|k: int| 0 <= k < its@.len() && #[trigger] down_spec(wv, its@[k] as int, y as int),
{
    let mut r: Vec<EntityId> = Vec::new();
    let mut k: usize = 0;
    while k < its.len()
        invariant
            wv.wf(),
            k <= its@.len(),
            strictly_sorted(r@),
            forall|y: EntityId| #[trigger] r@.contains(y) <==>
                exists|j: int| 0 <= j < k && #[trigger] down_spec(wv, its@[j] as int, y as int),
        decreases its@.len() - k,
    {
        let part = down(wv, its[k]);
        let ghost r0 = r@;
        absorb(&mut r, &part);
        proof {
            assert forall|y: EntityId| #[trigger] r@.contains(y) <==>
                exists|j: int| 0 <= j < k + 1 && #[trigger] down_spec(wv, its@[j] as int, y as int) by {
                if exists|j: int| 0 <= j < k + 1 && #[trigger] down_spec(wv, its@[j] as int, y as int) {
                    let j = choose|j: int| 0 <= j < k + 1 && #[trigger] down_spec(wv, its@[j] as int, y as int);
                    if j < k {
                        assert(r0.contains(y));
                    }
                }
            }
        }
        k = k + 1;
    }
    r
}

/// The union of `up` over `its`, in increasing order.
pub fn up_n(wv: &Weave, its: &[EntityId]) -> (r: Vec<EntityId>)
    requires
        wv.wf(),
    ensures
        strictly_sorted(r@),
        forall|y: EntityId| #[trigger] r@.contains(y) <==>
            exists|k: int| 0 <= k < its@.len() && #[trigger] up_spec(wv, its@[k] as int, y as int),
{
    let mut r: Vec<EntityId> = Vec::new();
    let mut k: usize = 0;
    while k < its.len()
        invariant
            wv.wf(),
            k <= its@.len(),
            strictly_sorted(r@),
            forall|y: EntityId| #[trigger] r@.contains(y) <==>
                exists|j: int| 0 <= j < k && #[trigger] up_spec(wv, its@[j] as int, y as int),
        decreases its@.len() - k,
    {
        let part = up(wv, its[k]);
        let ghost r0 = r@;
        absorb(&mut r, &part);
        proof {
            assert forall|y: EntityId| #[trigger] r@.contains(y) <==>
                exists|j: int| 0 <= j < k + 1 && #[trigger] up_spec(wv, its@[j] as int, y as int) by {
                if exists|j: int| 0 <= j < k + 1 && #[trigger] up_spec(wv, its@[j] as int, y as int) {
                    let j = choose|j: int| 0 <= j < k + 1 && #[trigger] up_spec(wv, its@[j] as int, y as int);
                    if j < k {
                        assert(r0.contains(y));
                    }
                }
            }
        }
        k = k + 1;
    }
    r
}

/// The number of dependents of `e` that `p` keeps.
pub open spec fn degree(wv: &Weave, p: Pick, e: int) -> nat {
    Set::new(|a: EntityId| picks(wv, p, e, a as int)).len()
}

/// The number of dependents of `e` that `p` keeps.
pub fn count_picks(wv: &Weave, p: Pick, e: EntityId) -> (r: usize)
    requires
        wv.wf(),
    ensures
        r == degree(wv, p, e as int),
{
    let v = pick_one(wv, p, e);
    proof {
        assert(v@.no_duplicates()) by {
            assert forall|a: int, b: int| 0 <= a < b < v@.len() implies v@[a] != v@[b] by {}
        }
        v@.unique_seq_to_set();
        assert(v@.to_set() =~= Set::new(|a: EntityId| picks(wv, p, e as int, a as int)));
    }
    v.len()
}

} // verus!
