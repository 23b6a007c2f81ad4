//! Rewriting: a goal graph says what a pattern should become; the rewrite finds the
//! pattern in a target and splices the goal's extra structure into it.
use vstd::prelude::*;
use std::collections::HashMap;
use crate::store::{EntityId, Weave, datatype_id_of};
use crate::traverse::{down_spec, Pick, picks};
use crate::search::{is_match, matches_with_seed, find_one, down_set, passes, candidate, seeded_match,
    seeded_target, seeded_by, seeded_pattern_entity, listed, filtered_match, injective};
use crate::shape::{get_annotation, annotation_mark, among};
use crate::payload::{payload_entity, payload_entity_spec};
use crate::sorted::lemma_bounded_len;

verus! {

broadcast use vstd::std_specs::hash::group_hash_axioms;

/// Why a rewrite did not happen.
#[derive(Debug)]
pub enum ReplaceError {
    /// The pattern does not match the goal in exactly one way; these are the matches.
    FailedToMatchUniqueGoal(Vec<HashMap<EntityId, EntityId>>),
    /// The pattern does not occur in the target.
    FailedToFindUniqueTarget,
}

pub open spec fn identity_dt() -> u64 {
    datatype_id_of("Identity"@)
}

/// The goal entity `g` carries an `Identity` annotation naming the pattern entity `e`: the
/// smallest mark on `g` with an `Identity` component holds `e`.
pub open spec fn identity_names(wv: &Weave, g: EntityId, e: EntityId) -> bool {
    exists|mk: EntityId| #[trigger] annotation_mark(wv, g, identity_dt(), mk)
        && payload_entity_spec(wv.component(identity_dt(), mk)->Some_0) == Some(e as u64)
}

/// `c` may stand for the pattern entity `e` in the goal: it is hoisted under the goal root
/// and names `e`, or it names nothing, `e` is hoisted under the pattern root and named by
/// no goal entity, and `c` passes `e`'s filters.
pub open spec fn goal_candidate(wv: &Weave, p: EntityId, g: EntityId, e: EntityId, c: EntityId) -> bool {
    &&& down_spec(wv, g as int, c as int)
    &&& if exists|e2: EntityId| #[trigger] identity_names(wv, c, e2) {
        identity_names(wv, c, e)
    } else {
        down_spec(wv, p as int, e as int)
            && !(exists|g2: EntityId| down_spec(wv, g as int, g2 as int) && #[trigger] identity_names(wv, g2, e))
            && passes(wv, e, c)
    }
}

/// `m` matches the pattern in the goal, each image a goal candidate of its key.
pub open spec fn goal_match(wv: &Weave, p: EntityId, g: EntityId, m: Map<EntityId, EntityId>) -> bool {
    &&& is_match(wv, p, g, m)
    &&& forall|y: EntityId| #[trigger] m.contains_key(y) ==> goal_candidate(wv, p, g, y, m[y])
}

proof fn lemma_identity_unique(wv: &Weave, g: EntityId, e1: EntityId, e2: EntityId)
    requires
        identity_names(wv, g, e1),
        identity_names(wv, g, e2),
    ensures
        e1 == e2,
{
    let m1 = choose|mk: EntityId| #[trigger] annotation_mark(wv, g, identity_dt(), mk)
        && payload_entity_spec(wv.component(identity_dt(), mk)->Some_0) == Some(e1 as u64);
    let m2 = choose|mk: EntityId| #[trigger] annotation_mark(wv, g, identity_dt(), mk)
        && payload_entity_spec(wv.component(identity_dt(), mk)->Some_0) == Some(e2 as u64);
    if m1 < m2 {
        assert(picks(wv, Pick::Marks, g as int, m1 as int));
    } else if m2 < m1 {
        assert(picks(wv, Pick::Marks, g as int, m2 as int));
    }
}

/// The pattern matches the goal in exactly one way.
pub open spec fn unique_goal_match(wv: &Weave, p: EntityId, g: EntityId) -> bool {
    exists|m: Map<EntityId, EntityId>| #[trigger] goal_match(wv, p, g, m)
        && forall|m2: Map<EntityId, EntityId>| #[trigger] goal_match(wv, p, g, m2) ==> m2 == m
}

/// The seed lists exactly the `Identity` pairs of the goal entities.
pub open spec fn identity_seed_ok(wv: &Weave, g: EntityId, seed: Seq<(EntityId, EntityId)>) -> bool {
    &&& forall|k: int| 0 <= k < seed.len() ==> down_spec(wv, g as int, (#[trigger] seed[k]).1 as int)
        && identity_names(wv, seed[k].1, seed[k].0)
    &&& forall|c: EntityId, e: EntityId| down_spec(wv, g as int, c as int) && #[trigger] identity_names(wv, c, e)
        ==> seed.contains((e, c))
}

proof fn lemma_seed_candidates(wv: &Weave, p: EntityId, g: EntityId, seed: Seq<(EntityId, EntityId)>, e: EntityId, c: EntityId)
    requires
        identity_seed_ok(wv, g, seed),
    ensures
        candidate(wv, seed, p, g, e, c) == goal_candidate(wv, p, g, e, c),
{
    if down_spec(wv, g as int, c as int) {
        if seeded_target(seed, c) {
            let k = choose|k: int| 0 <= k < seed.len() && (#[trigger] seed[k]).1 == c;
            assert(identity_names(wv, c, seed[k].0));
            if seeded_by(seed, c, e) {
                let k2 = choose|k2: int| 0 <= k2 < seed.len() && #[trigger] seed[k2] == (e, c)
                    && forall|j: int| 0 <= j < k2 ==> (#[trigger] seed[j]).1 != c;
                assert(identity_names(wv, seed[k2].1, seed[k2].0));
            }
            if identity_names(wv, c, e) {
                lemma_first_with_target(seed, c);
                let k0 = choose|k0: int| 0 <= k0 < seed.len() && (#[trigger] seed[k0]).1 == c
                    && forall|j: int| 0 <= j < k0 ==> (#[trigger] seed[j]).1 != c;
                assert(identity_names(wv, seed[k0].1, seed[k0].0));
                lemma_identity_unique(wv, c, seed[k0].0, e);
                assert(seed[k0] == (e, c));
            }
        } else {
            if exists|e2: EntityId| #[trigger] identity_names(wv, c, e2) {
                let e2 = choose|e2: EntityId| #[trigger] identity_names(wv, c, e2);
                assert(seed.contains((e2, c)));
                let k = choose|k: int| 0 <= k < seed.len() && seed[k] == (e2, c);
                assert(seed[k].1 == c);
            }
            if seeded_pattern_entity(seed, e) {
                let k = choose|k: int| 0 <= k < seed.len() && (#[trigger] seed[k]).0 == e;
                assert(identity_names(wv, seed[k].1, seed[k].0));
                assert(down_spec(wv, g as int, seed[k].1 as int));
            }
            if exists|g2: EntityId| down_spec(wv, g as int, g2 as int) && #[trigger] identity_names(wv, g2, e) {
                let g2 = choose|g2: EntityId| down_spec(wv, g as int, g2 as int) && #[trigger] identity_names(wv, g2, e);
                assert(seed.contains((e, g2)));
                let k = choose|k: int| 0 <= k < seed.len() && seed[k] == (e, g2);
                assert(seed[k].0 == e);
            }
        }
    }
}

proof fn lemma_first_with_target(seed: Seq<(EntityId, EntityId)>, c: EntityId)
    requires
        exists|k: int| 0 <= k < seed.len() && (#[trigger] seed[k]).1 == c,
    ensures
        exists|k0: int| 0 <= k0 < seed.len() && (#[trigger] seed[k0]).1 == c
            && forall|j: int| 0 <= j < k0 ==> (#[trigger] seed[j]).1 != c,
{
    let k = choose|k: int| 0 <= k < seed.len() && (#[trigger] seed[k]).1 == c;
    lemma_first_below(seed, c, k);
}

proof fn lemma_first_below(seed: Seq<(EntityId, EntityId)>, c: EntityId, k: int)
    requires
        0 <= k < seed.len(),
        seed[k].1 == c,
    ensures
        exists|k0: int| 0 <= k0 < seed.len() && (#[trigger] seed[k0]).1 == c
            && forall|j: int| 0 <= j < k0 ==> (#[trigger] seed[j]).1 != c,
    decreases k,
{
    if exists|j: int| 0 <= j < k && (#[trigger] seed[j]).1 == c {
        let j = choose|j: int| 0 <= j < k && (#[trigger] seed[j]).1 == c;
        lemma_first_below(seed, c, j);
    } else {
        assert(forall|j: int| 0 <= j < k ==> (#[trigger] seed[j]).1 != c);
    }
}

/// The (pattern entity, goal entity) pairs that `Identity` annotations on the goal
/// entities declare.
fn identity_seed(wv: &Weave, g: EntityId, goal: &Vec<EntityId>) -> (r: Vec<(EntityId, EntityId)>)
    requires
        wv.wf(),
        forall|y: EntityId| #[trigger] goal@.contains(y) <==> down_spec(wv, g as int, y as int),
    ensures
        identity_seed_ok(wv, g, r@),
{
    let mut seed: Vec<(EntityId, EntityId)> = Vec::new();
    let mut k: usize = 0;
    while k < goal.len()
        invariant
            wv.wf(),
            k <= goal@.len(),
            forall|y: EntityId| #[trigger] goal@.contains(y) <==> down_spec(wv, g as int, y as int),
            forall|i: int| 0 <= i < seed@.len() ==> down_spec(wv, g as int, (#[trigger] seed@[i]).1 as int)
                && identity_names(wv, seed@[i].1, seed@[i].0),
            forall|j: int, e: EntityId| 0 <= j < k && #[trigger] identity_names(wv, goal@[j], e)
                ==> seed@.contains((e, goal@[j])),
        decreases goal@.len() - k,
    {
        let gk = goal[k];
        let ghost s0 = seed@;
        proof {
            assert(goal@.contains(gk));
        }
        match get_annotation(wv, gk, "Identity") {
            None => {
                proof {
                    assert forall|e: EntityId| !identity_names(wv, gk, e) by {
                        if identity_names(wv, gk, e) {
                            let mk = choose|mk: EntityId| #[trigger] annotation_mark(wv, gk, identity_dt(), mk)
                                && payload_entity_spec(wv.component(identity_dt(), mk)->Some_0) == Some(e as u64);
                        }
                    }
                }
            },
            Some(ann) => {
                let payload = wv.get_component_raw(ann, "Identity").unwrap();
                match payload_entity(payload.as_slice()) {
                    None => {
                        proof {
                            assert forall|e: EntityId| !identity_names(wv, gk, e) by {
                                if identity_names(wv, gk, e) {
                                    let mk = choose|mk: EntityId| #[trigger] annotation_mark(wv, gk, identity_dt(), mk)
                                        && payload_entity_spec(wv.component(identity_dt(), mk)->Some_0) == Some(e as u64);
                                    if mk < ann {
                                        assert(picks(wv, Pick::Marks, gk as int, mk as int));
                                    } else if ann < mk {
                                        assert(picks(wv, Pick::Marks, gk as int, ann as int));
                                    }
                                }
                            }
                        }
                    },
                    Some(eid) => {
                        if eid <= usize::MAX as u64 {
                            seed.push((eid as EntityId, gk));
                            proof {
                                assert(identity_names(wv, gk, eid as EntityId));
                            }
                        } else {
                            proof {
                                assert forall|e: EntityId| !identity_names(wv, gk, e) by {
                                    if identity_names(wv, gk, e) {
                                        let mk = choose|mk: EntityId| #[trigger] annotation_mark(wv, gk, identity_dt(), mk)
                                            && payload_entity_spec(wv.component(identity_dt(), mk)->Some_0) == Some(e as u64);
                                        if mk < ann {
                                            assert(picks(wv, Pick::Marks, gk as int, mk as int));
                                        } else if ann < mk {
                                            assert(picks(wv, Pick::Marks, gk as int, ann as int));
                                        }
                                    }
                                }
                            }
                        }
                        proof {
                            assert forall|e: EntityId| #[trigger] identity_names(wv, gk, e) implies e as u64 == eid by {
                                let mk = choose|mk: EntityId| #[trigger] annotation_mark(wv, gk, identity_dt(), mk)
                                    && payload_entity_spec(wv.component(identity_dt(), mk)->Some_0) == Some(e as u64);
                                if mk < ann {
                                    assert(picks(wv, Pick::Marks, gk as int, mk as int));
                                } else if ann < mk {
                                    assert(picks(wv, Pick::Marks, gk as int, ann as int));
                                }
                            }
                        }
                    },
                }
            },
        }
        proof {
            assert forall|i: int| 0 <= i < seed@.len() implies down_spec(wv, g as int, (#[trigger] seed@[i]).1 as int)
                && identity_names(wv, seed@[i].1, seed@[i].0) by {
                if i < s0.len() {
                    assert(seed@[i] == s0[i]);
                }
            }
            assert forall|j: int, e: EntityId| 0 <= j < k + 1 && #[trigger] identity_names(wv, goal@[j], e)
                implies seed@.contains((e, goal@[j])) by {
                if j < k {
                    assert(s0.contains((e, goal@[j])));
                    let i = choose|i: int| 0 <= i < s0.len() && s0[i] == (e, goal@[j]);
                    assert(seed@[i] == s0[i]);
                } else {
                    assert(seed@[seed@.len() - 1] == (e, gk));
                }
            }
        }
        k = k + 1;
    }
    proof {
        assert forall|c: EntityId, e: EntityId| down_spec(wv, g as int, c as int) && #[trigger] identity_names(wv, c, e)
            implies seed@.contains((e, c)) by {
            assert(goal@.contains(c));
            let j = choose|j: int| 0 <= j < goal@.len() && goal@[j] == c;
        }
    }
    seed
}

/// The unique goal match of the pattern: goal entities with an `Identity` annotation are
/// bound to the pattern entity it names. Fails, listing every goal match, unless the list
/// holds exactly one.
pub fn get_match_mapping(wv: &Weave, hoisted_pattern: EntityId, hoisted_goal: EntityId)
    -> (r: Result<HashMap<EntityId, EntityId>, ReplaceError>)
    requires
        wv.wf(),
    ensures
        r is Ok <==> unique_goal_match(wv, hoisted_pattern, hoisted_goal),
        r matches Ok(m) ==> goal_match(wv, hoisted_pattern, hoisted_goal, m@)
            && forall|m2: Map<EntityId, EntityId>| #[trigger] goal_match(wv, hoisted_pattern, hoisted_goal, m2) ==> m2 == m@,
        r matches Err(e) ==> (e matches ReplaceError::FailedToMatchUniqueGoal(ms) && ms@.len() != 1
            && (forall|j: int| 0 <= j < ms@.len() ==> goal_match(wv, hoisted_pattern, hoisted_goal, (#[trigger] ms@[j])@))
            && (forall|m2: Map<EntityId, EntityId>| #[trigger] goal_match(wv, hoisted_pattern, hoisted_goal, m2)
                ==> listed(ms@, 0, m2))),
{
    let goal = down_set(wv, hoisted_goal);
    let seed = identity_seed(wv, hoisted_goal, &goal);
    let mut ms = matches_with_seed(wv, hoisted_pattern, hoisted_goal, &seed);
    proof {
        assert forall|m2: Map<EntityId, EntityId>| #[trigger] goal_match(wv, hoisted_pattern, hoisted_goal, m2)
            == seeded_match(wv, seed@, hoisted_pattern, hoisted_goal, m2) by {
            assert forall|y: EntityId| m2.contains_key(y) implies
                candidate(wv, seed@, hoisted_pattern, hoisted_goal, y, m2[y]) == goal_candidate(wv, hoisted_pattern, hoisted_goal, y, m2[y]) by {
                lemma_seed_candidates(wv, hoisted_pattern, hoisted_goal, seed@, y, m2[y]);
            }
        }
    }
    if ms.len() == 1 {
        let ghost all = ms@;
        let m = ms.swap_remove(0);
        proof {
            assert(m@ == all[0]@);
            assert(seeded_match(wv, seed@, hoisted_pattern, hoisted_goal, all[0]@));
            assert(goal_match(wv, hoisted_pattern, hoisted_goal, m@));
            assert forall|m2: Map<EntityId, EntityId>| #[trigger] goal_match(wv, hoisted_pattern, hoisted_goal, m2) implies m2 == m@ by {
                assert(listed(all, 0, m2));
            }
            assert(unique_goal_match(wv, hoisted_pattern, hoisted_goal));
        }
        Ok(m)
    } else {
        proof {
            if unique_goal_match(wv, hoisted_pattern, hoisted_goal) {
                let m = choose|m: Map<EntityId, EntityId>| #[trigger] goal_match(wv, hoisted_pattern, hoisted_goal, m)
                    && forall|m2: Map<EntityId, EntityId>| #[trigger] goal_match(wv, hoisted_pattern, hoisted_goal, m2) ==> m2 == m;
                assert(listed(ms@, 0, m));
                assert(ms@.len() >= 2);
                assert(seeded_match(wv, seed@, hoisted_pattern, hoisted_goal, ms@[0]@));
                assert(seeded_match(wv, seed@, hoisted_pattern, hoisted_goal, ms@[1]@));
                assert(goal_match(wv, hoisted_pattern, hoisted_goal, ms@[0]@));
                assert(goal_match(wv, hoisted_pattern, hoisted_goal, ms@[1]@));
                assert(ms@[0]@ != ms@[1]@);
            }
        }
        Err(ReplaceError::FailedToMatchUniqueGoal(ms))
    }
}

/// `mg` is the unique goal match and `mt` a target match.
pub open spec fn rewrite_inputs(wv: &Weave, p: EntityId, g: EntityId, t: EntityId,
    mg: Map<EntityId, EntityId>, mt: Map<EntityId, EntityId>) -> bool {
    &&& goal_match(wv, p, g, mg)
    &&& forall|m2: Map<EntityId, EntityId>| #[trigger] goal_match(wv, p, g, m2) ==> m2 == mg
    &&& filtered_match(wv, p, t, mt)
}

/// What a successful rewrite did, given the goal match `mg` and the target match `mt`:
/// `gt` maps each goal entity to its image (the target image of its pattern entity, or a
/// fresh entity), injectively; each image is live and, where both endpoints of the goal
/// entity are goal entities, has their images as endpoints.
pub open spec fn rewritten(old: &Weave, new: &Weave, g: EntityId, gt: Map<EntityId, EntityId>,
    mg: Map<EntityId, EntityId>, mt: Map<EntityId, EntityId>) -> bool {
    &&& forall|x: EntityId| #[trigger] gt.contains_key(x) <==> down_spec(old, g as int, x as int)
    &&& forall|q: EntityId| #[trigger] mg.contains_key(q) ==> gt.contains_key(mg[q]) && gt[mg[q]] == mt[q]
    &&& forall|x: EntityId| #[trigger] gt.contains_key(x) && !(exists|q: EntityId| #[trigger] mg.contains_key(q) && mg[q] == x)
        ==> !old.is_live(gt[x] as int)
    &&& injective(gt)
    &&& forall|x: EntityId| #[trigger] gt.contains_key(x) ==> new.is_live(gt[x] as int)
    &&& forall|x: EntityId| #[trigger] gt.contains_key(x) && gt.contains_key(old.src_of(x as int))
        && gt.contains_key(old.tgt_of(x as int)) ==>
        new.src_of(gt[x] as int) == gt[old.src_of(x as int)] && new.tgt_of(gt[x] as int) == gt[old.tgt_of(x as int)]
}

/// `i` is the image of some goal entity under `gt`.
pub open spec fn is_image(gt: Map<EntityId, EntityId>, i: int) -> bool {
    exists|x: EntityId| gt.contains_key(x) && #[trigger] gt[x] == i
}

/// Apart from the images, every entity live in `old` is untouched in `new`, and the
/// datatypes and components are as in `old`.
pub open spec fn frame_kept(old: &Weave, new: &Weave, gt: Map<EntityId, EntityId>) -> bool {
    &&& new.same_components(old)
    &&& forall|i: int| old.is_live(i) && !is_image(gt, i) ==> #[trigger] new.agrees_at(old, i)
}

/// `gt` is what a rewrite from `old` to `new` returns: it is `rewritten` for the unique
/// goal match and some target match.
pub open spec fn replaced(old: &Weave, new: &Weave, p: EntityId, g: EntityId, t: EntityId,
    gt: Map<EntityId, EntityId>) -> bool {
    exists|mg: Map<EntityId, EntityId>, mt: Map<EntityId, EntityId>|
        #[trigger] rewritten(old, new, g, gt, mg, mt) && rewrite_inputs(old, p, g, t, mg, mt)
}

/// Matches the pattern in the goal (uniquely) and in the target, then makes the target
/// look like the goal there: each goal entity gets an image (the target image of its
/// pattern entity, or a new knot for goal entities outside the goal match), and each
/// image takes the images of its goal entity's endpoints as endpoints, where those
/// endpoints are goal entities. Returns the map from goal entities to their images.
/// On failure the store is left as it was.
pub fn replace(wv: &mut Weave, hoisted_pattern: EntityId, hoisted_goal: EntityId, hoisted_target: EntityId)
    -> (r: Result<HashMap<EntityId, EntityId>, ReplaceError>)
    requires
        old(wv).wf(),
        old(wv).room() >= old(wv).cap(),
    ensures
        final(wv).wf(),
        r is Ok <==> unique_goal_match(old(wv), hoisted_pattern, hoisted_goal)
            && exists|m: Map<EntityId, EntityId>| #[trigger] filtered_match(old(wv), hoisted_pattern, hoisted_target, m),
        r is Err ==> *final(wv) == *old(wv),
        r matches Err(ReplaceError::FailedToFindUniqueTarget) ==>
            unique_goal_match(old(wv), hoisted_pattern, hoisted_goal)
            && forall|m: Map<EntityId, EntityId>| !#[trigger] filtered_match(old(wv), hoisted_pattern, hoisted_target, m),
        r matches Err(ReplaceError::FailedToMatchUniqueGoal(ms)) ==> ms@.len() != 1
            && !unique_goal_match(old(wv), hoisted_pattern, hoisted_goal)
            && (forall|j: int| 0 <= j < ms@.len() ==> goal_match(old(wv), hoisted_pattern, hoisted_goal, (#[trigger] ms@[j])@))
            && forall|m2: Map<EntityId, EntityId>| #[trigger] goal_match(old(wv), hoisted_pattern, hoisted_goal, m2)
                ==> listed(ms@, 0, m2),
        r matches Ok(gt) ==> replaced(old(wv), final(wv), hoisted_pattern, hoisted_goal, hoisted_target, gt@)
            && frame_kept(old(wv), final(wv), gt@),
{
    let matching_goal = match get_match_mapping(wv, hoisted_pattern, hoisted_goal) {
        Ok(m) => m,
        Err(e) => { return Err(e); },
    };
    let matching_target = match find_one(wv, hoisted_pattern, hoisted_target) {
        Some(m) => m,
        None => {
            proof {
                assert(goal_match(old(wv), hoisted_pattern, hoisted_goal, matching_goal@));
            }
            return Err(ReplaceError::FailedToFindUniqueTarget);
        },
    };
    let ghost mg = matching_goal@;
    let ghost mt = matching_target@;
    let ghost w0 = *wv;
    assert(w0 == *old(wv));
    assert(rewrite_inputs(old(wv), hoisted_pattern, hoisted_goal, hoisted_target, mg, mt));
    assert(filtered_match(old(wv), hoisted_pattern, hoisted_target, mt));
    let pattern = down_set(wv, hoisted_pattern);
    let goal = down_set(wv, hoisted_goal);
    let mut ends: Vec<(EntityId, EntityId)> = Vec::new();
    let mut k: usize = 0;
    while k < goal.len()
        invariant
            rewrite_inputs(old(wv), hoisted_pattern, hoisted_goal, hoisted_target, mg, mt),
            wv.wf(),
            *wv == w0,
            k <= goal@.len(),
            ends@.len() == k,
            forall|j: int| 0 <= j < goal@.len() ==> wv.is_live(#[trigger] goal@[j] as int),
            forall|j: int| 0 <= j < k ==> #[trigger] ends@[j] == (w0.src_of(goal@[j] as int), w0.tgt_of(goal@[j] as int)),
        decreases goal@.len() - k,
    {
        ends.push((wv.src(goal[k]), wv.tgt(goal[k])));
        k = k + 1;
    }
    let mut gt: HashMap<EntityId, EntityId> = HashMap::new();
    let mut k: usize = 0;
    while k < pattern.len()
        invariant
            rewrite_inputs(old(wv), hoisted_pattern, hoisted_goal, hoisted_target, mg, mt),
            wv.wf(),
            *wv == w0,
            k <= pattern@.len(),
            mg == matching_goal@,
            mt == matching_target@,
            pattern@.no_duplicates(),
            is_match(wv, hoisted_pattern, hoisted_goal, mg),
            is_match(wv, hoisted_pattern, hoisted_target, mt),
            forall|y: EntityId| #[trigger] pattern@.contains(y) <==> down_spec(wv, hoisted_pattern as int, y as int),
            forall|x: EntityId| #[trigger] gt@.contains_key(x) <==> (exists|j: int| 0 <= j < k && mg[pattern@[j]] == x),
            forall|j: int| 0 <= j < k ==> #[trigger] gt@[mg[pattern@[j]]] == mt[pattern@[j]],
        decreases pattern@.len() - k,
    {
        let pe = pattern[k];
        proof {
            assert(pattern@.contains(pe));
        }
        let gx = *matching_goal.get(&pe).unwrap();
        let tx = *matching_target.get(&pe).unwrap();
        let ghost g0 = gt@;
        gt.insert(gx, tx);
        proof {
            assert forall|x: EntityId| #[trigger] gt@.contains_key(x) <==> (exists|j: int| 0 <= j < k + 1 && mg[pattern@[j]] == x) by {
                if exists|j: int| 0 <= j < k + 1 && mg[pattern@[j]] == x {
                    let j = choose|j: int| 0 <= j < k + 1 && mg[pattern@[j]] == x;
                    if j < k {
                        assert(g0.contains_key(x));
                    }
                }
                if g0.contains_key(x) {
                    let j = choose|j: int| 0 <= j < k && mg[pattern@[j]] == x;
                }
            }
            assert forall|j: int| 0 <= j < k + 1 implies #[trigger] gt@[mg[pattern@[j]]] == mt[pattern@[j]] by {
                if j < k {
                    if mg[pattern@[j]] == gx {
                        assert(pattern@.contains(pattern@[j]));
                        assert(pattern@[j] != pe) by {
                            lemma_distinct_at(pattern@, j, k as int);
                        }
                        assert(mg.contains_key(pattern@[j]) && mg.contains_key(pe));
                    }
                }
            }
        }
        k = k + 1;
    }
    let ghost gt0 = gt@;
    proof {
        assert forall|q: EntityId| #[trigger] mg.contains_key(q) implies gt0.contains_key(mg[q]) && gt0[mg[q]] == mt[q] by {
            assert(pattern@.contains(q));
            let j = choose|j: int| 0 <= j < pattern@.len() && pattern@[j] == q;
            assert(gt0[mg[pattern@[j]]] == mt[pattern@[j]]);
        }
        assert forall|x: EntityId| #[trigger] gt0.contains_key(x) implies (exists|q: EntityId| #[trigger] mg.contains_key(q) && mg[q] == x) by {
            let j = choose|j: int| 0 <= j < pattern@.len() && mg[pattern@[j]] == x;
            assert(pattern@.contains(pattern@[j]));
            assert(mg.contains_key(pattern@[j]));
        }
        assert forall|x: EntityId| #[trigger] gt0.contains_key(x) implies down_spec(&w0, hoisted_goal as int, x as int) && w0.is_live(gt0[x] as int) by {
            let q = choose|q: EntityId| #[trigger] mg.contains_key(q) && mg[q] == x;
            assert(gt0[mg[q]] == mt[q]);
            assert(down_spec(wv, hoisted_pattern as int, q as int));
            assert(mt.contains_key(q));
        }
        assert(injective(gt0)) by {
            assert forall|a: EntityId, b: EntityId| #[trigger] gt0.contains_key(a) && #[trigger] gt0.contains_key(b) && a != b
                implies gt0[a] != gt0[b] by {
                let qa = choose|q: EntityId| #[trigger] mg.contains_key(q) && mg[q] == a;
                let qb = choose|q: EntityId| #[trigger] mg.contains_key(q) && mg[q] == b;
                assert(qa != qb);
                assert(mt.contains_key(qa) && mt.contains_key(qb));
            }
        }
    }
    proof {
        assert forall|j: int| 0 <= j < goal@.len() implies (#[trigger] goal@[j]) < w0.cap() by {
            assert(w0.is_live(goal@[j] as int));
        }
        lemma_bounded_len(goal@, w0.cap());
        w0.lemma_same_components_refl();
    }
    let mut k: usize = 0;
    while k < goal.len()
        invariant
            rewrite_inputs(old(wv), hoisted_pattern, hoisted_goal, hoisted_target, mg, mt),
            wv.wf(),
            k <= goal@.len(),
            goal@.no_duplicates(),
            wv.room() + k >= w0.room(),
            w0.room() >= w0.cap(),
            goal@.len() <= w0.cap(),
            forall|i: int| w0.is_live(i) ==> #[trigger] wv.agrees_at(&w0, i),
            wv.same_components(&w0),
            forall|y: EntityId| #[trigger] goal@.contains(y) <==> down_spec(&w0, hoisted_goal as int, y as int),
            forall|x: EntityId| #[trigger] gt0.contains_key(x) ==> gt@.contains_key(x) && gt@[x] == gt0[x],
            forall|x: EntityId| #[trigger] gt0.contains_key(x) ==> down_spec(&w0, hoisted_goal as int, x as int) && w0.is_live(gt0[x] as int),
            forall|x: EntityId| #[trigger] gt@.contains_key(x) ==> down_spec(&w0, hoisted_goal as int, x as int)
                && wv.is_live(gt@[x] as int),
            forall|x: EntityId| #[trigger] gt@.contains_key(x) && !gt0.contains_key(x) ==> !w0.is_live(gt@[x] as int),
            injective(gt@),
            forall|j: int| 0 <= j < k ==> gt@.contains_key(#[trigger] goal@[j]),
            forall|x: EntityId| #[trigger] gt@.contains_key(x) ==> gt0.contains_key(x) || among(goal@, k as int, x),
        decreases goal@.len() - k,
    {
        let g = goal[k];
        if !gt.contains_key(&g) {
            let ghost before = *wv;
            let ghost gb = gt@;
            let fresh = wv.new_knot();
            proof {
                assert(goal@.contains(g));
                assert forall|h: EntityId| #[trigger] gb.contains_key(h) implies wv.is_live(gb[h] as int) by {
                    assert(wv.agrees_at(&before, gb[h] as int));
                }
                assert forall|i: int| w0.is_live(i) implies #[trigger] wv.agrees_at(&w0, i) by {
                    assert(before.agrees_at(&w0, i));
                    assert(wv.agrees_at(&before, i));
                }
                Weave::lemma_same_components_trans(&w0, &before, wv);
                assert(!w0.is_live(fresh as int)) by {
                    if w0.is_live(fresh as int) {
                        assert(before.agrees_at(&w0, fresh as int));
                    }
                }
            }
            gt.insert(g, fresh);
            proof {
                assert(injective(gt@)) by {
                    assert forall|a: EntityId, b: EntityId| #[trigger] gt@.contains_key(a) && #[trigger] gt@.contains_key(b) && a != b
                        implies gt@[a] != gt@[b] by {
                        if a == g {
                            assert(before.is_live(gb[b] as int));
                        } else if b == g {
                            assert(before.is_live(gb[a] as int));
                        }
                    }
                }
                assert forall|x: EntityId| #[trigger] gt@.contains_key(x) implies gt0.contains_key(x) || among(goal@, k + 1, x) by {
                    lemma_among_step(goal@, k as int, x);
                }
                assert forall|x: EntityId| #[trigger] gt@.contains_key(x) && !gt0.contains_key(x) implies !w0.is_live(gt@[x] as int) by {}
            }
        } else {
            proof {
                assert forall|x: EntityId| #[trigger] gt@.contains_key(x) implies gt0.contains_key(x) || among(goal@, k + 1, x) by {
                    lemma_among_step(goal@, k as int, x);
                }
            }
        }
        k = k + 1;
    }
    let ghost gt1 = gt@;
    let ghost w1 = *wv;
    proof {
        assert forall|i: int| w0.is_live(i) && !is_image(gt1, i) implies #[trigger] wv.agrees_at(&w0, i) by {}
        assert forall|x: EntityId| #[trigger] gt1.contains_key(x) <==> down_spec(&w0, hoisted_goal as int, x as int) by {
            if down_spec(&w0, hoisted_goal as int, x as int) {
                assert(goal@.contains(x));
                let j = choose|j: int| 0 <= j < goal@.len() && goal@[j] == x;
            }
        }
    }
    let mut k: usize = 0;
    while k < goal.len()
        invariant
            rewrite_inputs(old(wv), hoisted_pattern, hoisted_goal, hoisted_target, mg, mt),
            wv.wf(),
            k <= goal@.len(),
            goal@.no_duplicates(),
            ends@.len() == goal@.len(),
            forall|j: int| 0 <= j < goal@.len() ==> #[trigger] ends@[j] == (w0.src_of(goal@[j] as int), w0.tgt_of(goal@[j] as int)),
            forall|y: EntityId| #[trigger] goal@.contains(y) <==> down_spec(&w0, hoisted_goal as int, y as int),
            gt@ == gt1,
            injective(gt1),
            forall|x: EntityId| #[trigger] gt1.contains_key(x) <==> down_spec(&w0, hoisted_goal as int, x as int),
            forall|x: EntityId| #[trigger] gt1.contains_key(x) ==> wv.is_live(gt1[x] as int),
            forall|i: int| #[trigger] wv.is_live(i) == w1.is_live(i),
            wv.same_components(&w0),
            forall|i: int| w0.is_live(i) && !is_image(gt1, i) ==> #[trigger] wv.agrees_at(&w0, i),
            forall|j: int| 0 <= j < k ==> {
                let x = #[trigger] goal@[j];
                gt1.contains_key(w0.src_of(x as int)) && gt1.contains_key(w0.tgt_of(x as int)) ==>
                    wv.src_of(gt1[x] as int) == gt1[w0.src_of(x as int)] && wv.tgt_of(gt1[x] as int) == gt1[w0.tgt_of(x as int)]
            },
        decreases goal@.len() - k,
    {
        let g = goal[k];
        let (gs, gtg) = ends[k];
        proof {
            assert(goal@.contains(g));
            assert(ends@[k as int] == (w0.src_of(g as int), w0.tgt_of(g as int)));
            assert(gt1.contains_key(g));
        }
        if gt.contains_key(&gs) && gt.contains_key(&gtg) {
            let image = *gt.get(&g).unwrap();
            let s = *gt.get(&gs).unwrap();
            let t = *gt.get(&gtg).unwrap();
            let ghost before = *wv;
            wv.change_ends(image, s, t);
            proof {
                Weave::lemma_same_components_trans(&w0, &before, wv);
                assert forall|i: int| w0.is_live(i) && !is_image(gt1, i) implies #[trigger] wv.agrees_at(&w0, i) by {
                    assert(before.agrees_at(&w0, i));
                    if i == image as int {
                        assert(gt1.contains_key(g) && gt1[g] == image);
                    }
                    assert(wv.agrees_at(&before, i));
                }
                assert forall|i: int| #[trigger] wv.is_live(i) == w1.is_live(i) by {
                    assert(wv.agrees_at(&before, i) || i == image);
                }
                assert forall|h: EntityId| #[trigger] gt1.contains_key(h) implies wv.is_live(gt1[h] as int) by {
                    assert(wv.agrees_at(&before, gt1[h] as int) || gt1[h] == image);
                }
                assert forall|j: int| 0 <= j < k + 1 implies {
                    let x = #[trigger] goal@[j];
                    gt1.contains_key(w0.src_of(x as int)) && gt1.contains_key(w0.tgt_of(x as int)) ==>
                        wv.src_of(gt1[x] as int) == gt1[w0.src_of(x as int)] && wv.tgt_of(gt1[x] as int) == gt1[w0.tgt_of(x as int)]
                } by {
                    if j < k {
                        let x = goal@[j];
                        assert(x != g) by { lemma_distinct_at(goal@, j, k as int); }
                        assert(goal@.contains(x));
                        assert(gt1.contains_key(x));
                        assert(image == gt1[g]);
                        assert(gt1[x] != image);
                        assert(wv.agrees_at(&before, gt1[x] as int));
                    }
                }
            }
        } else {
            proof {
                assert forall|j: int| 0 <= j < k + 1 implies {
                    let x = #[trigger] goal@[j];
                    gt1.contains_key(w0.src_of(x as int)) && gt1.contains_key(w0.tgt_of(x as int)) ==>
                        wv.src_of(gt1[x] as int) == gt1[w0.src_of(x as int)] && wv.tgt_of(gt1[x] as int) == gt1[w0.tgt_of(x as int)]
                } by {
                    if j == k {
                        assert(ends@[j] == (w0.src_of(g as int), w0.tgt_of(g as int)));
                    }
                }
            }
        }
        k = k + 1;
    }
    proof {
        assert forall|x: EntityId| #[trigger] gt1.contains_key(x) && !(exists|q: EntityId| #[trigger] mg.contains_key(q) && mg[q] == x)
            implies !w0.is_live(gt1[x] as int) by {
            if gt0.contains_key(x) {
                let j = choose|j: int| 0 <= j < pattern@.len() && mg[pattern@[j]] == x;
                assert(pattern@.contains(pattern@[j]));
                assert(mg.contains_key(pattern@[j]));
            }
        }
        assert forall|x: EntityId| #[trigger] gt1.contains_key(x) && gt1.contains_key(w0.src_of(x as int))
            && gt1.contains_key(w0.tgt_of(x as int)) implies
            wv.src_of(gt1[x] as int) == gt1[w0.src_of(x as int)] && wv.tgt_of(gt1[x] as int) == gt1[w0.tgt_of(x as int)] by {
            assert(goal@.contains(x));
            let j = choose|j: int| 0 <= j < goal@.len() && goal@[j] == x;
        }
        assert forall|q: EntityId| #[trigger] mg.contains_key(q) implies gt1.contains_key(mg[q]) && gt1[mg[q]] == mt[q] by {
            assert(gt0.contains_key(mg[q]) && gt0[mg[q]] == mt[q]);
        }
        assert(rewritten(&w0, wv, hoisted_goal, gt1, mg, mt));
        assert(w0 == *old(wv));
        assert(rewritten(old(wv), wv, hoisted_goal, gt@, mg, mt));
        assert(rewrite_inputs(old(wv), hoisted_pattern, hoisted_goal, hoisted_target, mg, mt));
        assert(replaced(old(wv), wv, hoisted_pattern, hoisted_goal, hoisted_target, gt@));
        assert(frame_kept(old(wv), wv, gt@));
    }
    Ok(gt)
}

proof fn lemma_distinct_at(s: Seq<EntityId>, i: int, j: int)
    requires
        s.no_duplicates(),
        0 <= i < j < s.len(),
    ensures
        s[i] != s[j],
{
}

proof fn lemma_among_step(s: Seq<EntityId>, n: int, x: EntityId)
    requires
        0 <= n < s.len(),
    ensures
        among(s, n + 1, x) <==> (among(s, n, x) || s[n] == x),
{
    if among(s, n + 1, x) {
        let j = choose|j: int| 0 <= j < n + 1 && s[j] == x;
        if j < n {
            assert(among(s, n, x));
        }
    }
    if s[n] == x {
        assert(among(s, n + 1, x));
    }
    if among(s, n, x) {
        let j = choose|j: int| 0 <= j < n && s[j] == x;
        assert(among(s, n + 1, x));
    }
}

} // verus!
