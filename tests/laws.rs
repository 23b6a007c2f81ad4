use std::collections::HashMap;
use weave::store::Weave;
use weave::traverse::{down, up};
use weave::search::{find_one, find_all, check_solution, prepare_search_space};
use weave::shape::{annotate, hoist, markup, parent, pivot, connect};
use weave::payload::{string_payload, payload_string};

#[test]
fn ids_follow_the_freelist_then_the_watermark() {
    let mut w = Weave::new();
    let a = w.new_knot();
    assert_eq!(a, 0);
    w.delete_cascade(a);
    let b = w.new_knot();
    assert_eq!(b, 0);
    let c = w.new_knot();
    assert_eq!(c, 1);
    w.delete_cascade(c);
    let d = w.new_arrow(b, b);
    assert_eq!(d, 1);
}

#[test]
fn cascade_clears_reverse_index_of_survivors() {
    let mut w = Weave::new();
    let a = w.new_knot();
    let b = w.new_knot();
    let c = w.new_arrow(a, b);
    let d = w.new_mark(c);
    let _e = w.new_tether(d);
    w.delete_cascade(b);
    assert_eq!(w.get_dependents_for_source(a), vec![a]);
    assert_eq!(w.get_dependents_for_target(a), vec![a]);
    assert_eq!(w.freelist().len(), 4);
    let mut f = w.freelist().clone();
    f.sort();
    f.dedup();
    assert_eq!(f.len(), 4);
}

#[test]
fn cascade_follows_long_chains() {
    let mut w = Weave::new();
    let root = w.new_knot();
    let keep = w.new_knot();
    let mut last = root;
    let mut chain = vec![];
    for _ in 0..50 {
        last = w.new_mark(last);
        chain.push(last);
    }
    w.delete_cascade(root);
    assert!(w.is_valid(keep));
    for e in chain {
        assert!(!w.is_valid(e));
    }
    assert_eq!(w.freelist().len(), 51);
}

#[test]
fn exactly_one_kind_holds() {
    let mut w = Weave::new();
    let a = w.new_knot();
    let b = w.new_knot();
    let ab = w.new_arrow(a, b);
    let m = w.new_mark(a);
    let t = w.new_tether(b);
    for e in [a, b, ab, m, t] {
        let kinds = [w.is_knot(e), w.is_arrow(e), w.is_mark(e), w.is_tether(e)];
        assert_eq!(kinds.iter().filter(|k| **k).count(), 1);
    }
    assert!(w.is_knot(a));
    assert!(w.is_arrow(ab));
    assert!(w.is_mark(m));
    assert!(w.is_tether(t));
}

#[test]
fn nil_and_out_of_range_ids() {
    let w = Weave::new();
    assert!(w.is_nil(Weave::NIL));
    assert!(!w.is_nil(0));
    assert!(!w.is_valid(5000));
}

#[test]
fn store_grows_past_initial_capacity() {
    let mut w = Weave::new();
    let mut last = 0;
    for _ in 0..1500 {
        last = w.new_knot();
    }
    assert_eq!(last, 1499);
    assert!(w.is_valid(1499));
}

#[test]
fn parent_and_pivot_move_endpoints() {
    let mut w = Weave::new();
    let r = w.new_knot();
    let x = w.new_knot();
    let y = w.new_knot();
    parent(&mut w, r, &[x]);
    assert_eq!(w.src(x), r);
    assert!(w.is_tether(x));
    pivot(&mut w, y, &[x]);
    assert_eq!(w.tgt(x), y);
    assert!(w.is_arrow(x));
}

#[test]
fn connect_adds_arrows() {
    let mut w = Weave::new();
    let s = w.new_knot();
    let a = w.new_knot();
    let b = w.new_knot();
    connect(&mut w, s, &[a, b]);
    let mut ts: Vec<usize> = weave::traverse::arrows_out(&w, &[s]).iter().map(|x| w.tgt(*x)).collect();
    ts.sort();
    assert_eq!(ts, vec![a, b]);
}

#[test]
fn string_payload_frames_json() {
    let p = string_payload("With");
    assert_eq!(p, b"[{\"String\":\"With\"}]".to_vec());
    assert_eq!(payload_string(&p), Some("With".to_string()));
    assert_eq!(payload_string(b"[{\"Int\":3}]"), None);
    let q = string_payload("a\"b");
    assert_eq!(payload_string(&q), Some("a\"b".to_string()));
}

#[test]
fn components_attach_once_and_detach() {
    let mut w = Weave::new();
    let e = w.new_knot();
    w.add_component_raw(e, "With", b"one");
    w.add_component_raw(e, "With", b"two");
    assert!(w.has_component(e, "With"));
    assert_eq!(w.get_component_raw(e, "With"), Some(b"one".to_vec()));
    assert_eq!(w.get_archetype(e), vec![w.get_datatype_id("With")]);
    w.remove_component(e, "With");
    assert!(!w.has_component(e, "With"));
    assert!(w.get_archetype(e).is_empty());
    assert_eq!(w.get_component_raw(e, "With"), None);
}

#[test]
fn datatypes_register_once() {
    let mut w = Weave::new();
    assert_eq!(w.get_datatype_field_count("With"), 1);
    assert_eq!(w.get_datatype_field("With", 0).name, "name");
    assert_eq!(w.get_datatype_id("Missing"), Weave::NIL as u64);
    let id = w.def_datatype("Pos", &[]);
    assert_eq!(w.get_datatype_id("Pos"), id);
    assert_eq!(w.get_datatype_field_count("Pos"), 0);
    assert_eq!(w.get_type_name(id), Some("Pos".to_string()));
}

#[test]
fn annotation_is_found() {
    let mut w = Weave::new();
    let e = w.new_knot();
    assert_eq!(weave::shape::get_annotation(&w, e, "With"), None);
    let m = annotate(&mut w, e, "With", &string_payload("x"));
    assert_eq!(weave::shape::get_annotation(&w, e, "With"), Some(m));
    assert_eq!(w.tgt(m), e);
}

#[test]
fn found_match_passes_the_edge_check() {
    let mut w = Weave::new();
    let a = w.new_knot();
    let b = w.new_knot();
    w.new_arrow(a, b);
    let p = w.new_knot();
    hoist(&mut w, p, &[a, b]);
    let c = w.new_knot();
    let d = w.new_knot();
    let e = w.new_knot();
    w.new_arrow(c, d);
    w.new_arrow(d, e);
    let t = w.new_knot();
    hoist(&mut w, t, &[c, d, e]);
    let m = find_one(&w, p, t).unwrap();
    let keys: Vec<usize> = m.keys().cloned().collect();
    assert!(check_solution(&w, &keys, &m));
    let mut images: Vec<usize> = m.values().cloned().collect();
    images.sort();
    images.dedup();
    assert_eq!(images.len(), m.len());
    assert_eq!(find_all(&w, p, t).len(), 2);
}

#[test]
fn edge_check_rejects_a_bad_map() {
    let mut w = Weave::new();
    let a = w.new_knot();
    let b = w.new_knot();
    let ab = w.new_arrow(a, b);
    let c = w.new_knot();
    let d = w.new_knot();
    let cd = w.new_arrow(c, d);
    let mut m = HashMap::new();
    m.insert(a, d);
    m.insert(b, c);
    m.insert(ab, cd);
    let keys: Vec<usize> = m.keys().cloned().collect();
    assert!(!check_solution(&w, &keys, &m));
    m.insert(a, c);
    m.insert(b, d);
    assert!(check_solution(&w, &keys, &m));
}

#[test]
fn search_space_needs_candidates() {
    let mut w = Weave::new();
    let a = w.new_knot();
    let b = w.new_knot();
    w.new_arrow(a, b);
    let p = w.new_knot();
    hoist(&mut w, p, &[a, b]);
    let t = w.new_knot();
    let lone = w.new_knot();
    hoist(&mut w, t, &[lone]);
    assert!(prepare_search_space(&w, p, t, &vec![]).is_none());
    assert!(find_one(&w, p, t).is_none());
    assert!(find_all(&w, p, t).is_empty());
}

#[test]
fn hoist_skips_marks_and_tethers() {
    let mut w = Weave::new();
    let s = w.new_knot();
    let x = w.new_knot();
    let m = w.new_mark(x);
    hoist(&mut w, s, &[m]);
    assert!(down(&w, s).is_empty());
    hoist(&mut w, s, &[x]);
    assert_eq!(down(&w, s), vec![x]);
    assert_eq!(up(&w, x), vec![s]);
}

#[test]
fn markup_attaches_to_the_entity_itself() {
    let mut w = Weave::new();
    let e = w.new_knot();
    markup(&mut w, e, "With", &string_payload("n"));
    assert!(w.has_component(e, "With"));
}
