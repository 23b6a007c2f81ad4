use weave::store::Weave;
use weave::traverse::{arrows_out, down};
use weave::shape::{annotate, hoist, lift, lower, markup};
use weave::payload::{entity_payload, string_payload};
use weave::io::{serialize, deserialize, DeserializeError};
use weave::replace::{replace, get_match_mapping, ReplaceError};

#[test]
fn lower_undoes_lift() {
    let mut w = Weave::new();
    let a = w.new_knot();
    let b = w.new_knot();
    let x = w.new_arrow(a, b);
    lift(&mut w, &[x]);
    assert!(w.is_tether(x));
    assert_eq!(w.src(x), a);
    let out = arrows_out(&w, &[x]);
    assert_eq!(out.len(), 1);
    let y = out[0];
    let g = w.tgt(y);
    assert!(w.is_mark(g));
    assert_eq!(w.tgt(g), b);
    lower(&mut w, &[y]);
    assert!(w.is_valid(y));
    assert!(w.is_arrow(y));
    assert_eq!(w.src(y), a);
    assert_eq!(w.tgt(y), b);
    assert!(!w.is_valid(x));
    assert!(!w.is_valid(g));
}

#[test]
fn serialized_subgraph_reads_back() {
    let mut w = Weave::new();
    let a = w.new_knot();
    let b = w.new_knot();
    let ab = w.new_arrow(a, b);
    markup(&mut w, a, "With", &string_payload("tag"));
    let env = w.new_knot();
    hoist(&mut w, env, &[a, b]);
    let bytes = serialize(&w, env);
    assert_eq!(bytes.len(), 3 * 32 + 8 + 4 + 8 + 8 + string_payload("tag").len());
    assert_eq!(bytes[0..8].to_vec(), (a as u64).to_le_bytes().to_vec());
    let _ = ab;

    let mut w2 = Weave::new();
    let root = deserialize(&mut w2, &bytes).unwrap();
    let mut es = down(&w2, root);
    es.sort();
    assert_eq!(es.len(), 3);
    let knots: Vec<usize> = es.iter().cloned().filter(|e| w2.is_knot(*e)).collect();
    let arrows: Vec<usize> = es.iter().cloned().filter(|e| w2.is_arrow(*e)).collect();
    assert_eq!(knots.len(), 2);
    assert_eq!(arrows.len(), 1);
    let arr = arrows[0];
    assert!(knots.contains(&w2.src(arr)));
    assert!(knots.contains(&w2.tgt(arr)));
    let tagged = w2.src(arr);
    assert_eq!(w2.get_component_raw(tagged, "With"), Some(string_payload("tag")));
    assert!(!w2.has_component(w2.tgt(arr), "With"));
}

#[test]
fn truncated_bytes_are_refused() {
    let mut w = Weave::new();
    assert_eq!(deserialize(&mut w, &[1, 2, 3]), Err(DeserializeError::Truncated));
    let mut bytes = vec![0u8; 32];
    bytes[24] = 1;
    assert_eq!(deserialize(&mut w, &bytes), Err(DeserializeError::Truncated));
}

#[test]
fn unknown_datatype_is_refused() {
    let mut w = Weave::new();
    let a = w.new_knot();
    w.def_datatype("Local", &[]);
    w.add_component_raw(a, "Local", b"[]");
    let env = w.new_knot();
    hoist(&mut w, env, &[a]);
    let bytes = serialize(&w, env);
    let mut w2 = Weave::new();
    assert_eq!(deserialize(&mut w2, &bytes), Err(DeserializeError::UnknownDatatype));
}

fn identity(w: &mut Weave, goal_entity: usize, pattern_entity: usize) {
    annotate(w, goal_entity, "Identity", &entity_payload(pattern_entity));
}

#[test]
fn replace_splices_the_goal_into_the_target() {
    let mut w = Weave::new();
    let a = w.new_knot();
    let b = w.new_knot();
    w.new_arrow(a, b);
    let p = w.new_knot();
    hoist(&mut w, p, &[a, b]);

    let c = w.new_knot();
    let d = w.new_knot();
    let cd = w.new_arrow(c, d);
    let e = w.new_knot();
    let de = w.new_arrow(d, e);
    identity(&mut w, c, a);
    identity(&mut w, d, b);
    let g = w.new_knot();
    hoist(&mut w, g, &[c, d, e]);

    let x = w.new_knot();
    let y = w.new_knot();
    let xy = w.new_arrow(x, y);
    let t = w.new_knot();
    hoist(&mut w, t, &[x, y]);

    let gt = replace(&mut w, p, g, t).unwrap();
    assert_eq!(gt[&c], x);
    assert_eq!(gt[&d], y);
    assert_eq!(gt[&cd], xy);
    let image = gt[&de];
    assert!(w.is_arrow(image));
    assert_eq!(w.src(image), y);
    assert_eq!(w.tgt(image), gt[&e]);
    assert!(w.is_knot(gt[&e]));
}

#[test]
fn ambiguous_goal_is_refused() {
    let mut w = Weave::new();
    let a = w.new_knot();
    let p = w.new_knot();
    hoist(&mut w, p, &[a]);
    let c = w.new_knot();
    let d = w.new_knot();
    let g = w.new_knot();
    hoist(&mut w, g, &[c, d]);
    match get_match_mapping(&w, p, g) {
        Err(ReplaceError::FailedToMatchUniqueGoal(ms)) => assert_eq!(ms.len(), 2),
        _ => panic!("expected an ambiguous goal"),
    }
    let t = w.new_knot();
    match replace(&mut w, p, g, t) {
        Err(ReplaceError::FailedToMatchUniqueGoal(_)) => {},
        _ => panic!("expected an ambiguous goal"),
    }
}

#[test]
fn missing_target_is_refused() {
    let mut w = Weave::new();
    let a = w.new_knot();
    let p = w.new_knot();
    hoist(&mut w, p, &[a]);
    let c = w.new_knot();
    identity(&mut w, c, a);
    let g = w.new_knot();
    hoist(&mut w, g, &[c]);
    let t = w.new_knot();
    match replace(&mut w, p, g, t) {
        Err(ReplaceError::FailedToFindUniqueTarget) => {},
        _ => panic!("expected no target"),
    }
}

#[test]
fn lift_hoists_the_old_target_under_the_source() {
    let mut w = Weave::new();
    let s = w.new_knot();
    let t = w.new_knot();
    let x = w.new_arrow(s, t);
    lift(&mut w, &[x]);
    assert_eq!(down(&w, s), vec![t]);
    assert_eq!(weave::traverse::up(&w, t), vec![s]);
}

#[test]
fn hoist_adds_three_entities_per_object() {
    let mut w = Weave::new();
    let a = w.new_knot();
    let x = w.new_knot();
    let y = w.new_knot();
    let before = w.freelist().len();
    hoist(&mut w, a, &[x, y]);
    assert_eq!(before, 0);
    let n = w.new_knot();
    assert_eq!(n, 3 + 2 * 3);
}

#[test]
fn lower_deletes_tether_and_mark_of_a_dead_arrow() {
    let mut w = Weave::new();
    let s = w.new_knot();
    let t = w.new_knot();
    let x = w.new_arrow(s, t);
    lift(&mut w, &[x]);
    let y = arrows_out(&w, &[x])[0];
    let g = w.tgt(y);
    let other = w.new_arrow(x, g);
    w.delete_orphan(y);
    lower(&mut w, &[other]);
    assert!(!w.is_valid(x));
    assert!(!w.is_valid(g));
}
