//! Component payloads: the JSON text of a list of tagged field values. This module frames
//! the one-field string payloads that predicate annotations carry; the string itself is
//! encoded and decoded by `serde_json`.
use vstd::prelude::*;

verus! {

/// The JSON text that `serde_json` writes for the string `s`.
pub uninterp spec fn json_bytes_of(s: Seq<char>) -> Seq<u8>;

/// The string that `serde_json` reads from the JSON text `b`, if `b` is one.
pub uninterp spec fn json_string_value(b: Seq<u8>) -> Option<Seq<char>>;

/// Relies on `serde_json::to_vec`: the JSON text of a string. Writing into a `Vec` cannot
/// fail, and a string serializes without error.
#[verifier::external_body]
fn encode_json_string(s: &str) -> (r: Vec<u8>)
    ensures
        r@ == json_bytes_of(s@),
{
    serde_json::to_vec(s).unwrap()
}

/// Relies on `serde_json::from_slice`: reads a JSON string, if the bytes hold exactly one.
#[verifier::external_body]
fn decode_json_string(b: &[u8]) -> (r: Option<String>)
    ensures
        r is Some <==> json_string_value(b@) is Some,
        r matches Some(s) ==> json_string_value(b@) == Some(s@),
{
    serde_json::from_slice::<String>(b).ok()
}

/// `[{"String":`
pub open spec fn string_head() -> Seq<u8> {
    seq![91u8, 123u8, 34u8, 83u8, 116u8, 114u8, 105u8, 110u8, 103u8, 34u8, 58u8]
}

/// `}]`
pub open spec fn payload_tail() -> Seq<u8> {
    seq![125u8, 93u8]
}

/// The payload of a single string field holding `s`.
pub open spec fn string_payload_spec(s: Seq<char>) -> Seq<u8> {
    string_head() + json_bytes_of(s) + payload_tail()
}

/// The string held by a single-string-field payload, if `p` is one.
pub open spec fn payload_string_spec(p: Seq<u8>) -> Option<Seq<char>> {
    let h = string_head().len();
    let t = payload_tail().len();
    if p.len() >= h + t && p.subrange(0, h as int) == string_head()
        && p.subrange(p.len() - t, p.len() as int) == payload_tail() {
        json_string_value(p.subrange(h as int, p.len() - t))
    } else {
        None
    }
}

fn string_head_bytes() -> (r: Vec<u8>)
    ensures
        r@ == string_head(),
{
    let r: Vec<u8> = vec![91u8, 123u8, 34u8, 83u8, 116u8, 114u8, 105u8, 110u8, 103u8, 34u8, 58u8];
    assert(r@ =~= string_head());
    r
}

fn payload_tail_bytes() -> (r: Vec<u8>)
    ensures
        r@ == payload_tail(),
{
    let r: Vec<u8> = vec![125u8, 93u8];
    assert(r@ =~= payload_tail());
    r
}

/// The payload of a single string field holding `s`.
pub fn string_payload(s: &str) -> (r: Vec<u8>)
    ensures
        r@ == string_payload_spec(s@),
{
    let body = encode_json_string(s);
    let mut out = string_head_bytes();
    let mut i: usize = 0;
    while i < body.len()
        invariant
            i <= body@.len(),
            out@ == string_head() + body@.subrange(0, i as int),
        decreases body@.len() - i,
    {
        out.push(body[i]);
        i = i + 1;
        assert(out@ =~= string_head() + body@.subrange(0, i as int));
    }
    assert(body@.subrange(0, i as int) =~= body@);
    out.push(125u8);
    out.push(93u8);
    assert(out@ =~= string_payload_spec(s@));
    out
}

/// The string held by a single-string-field payload, if `p` is one.
pub fn payload_string(p: &[u8]) -> (r: Option<String>)
    ensures
        r is Some <==> payload_string_spec(p@) is Some,
        r matches Some(s) ==> payload_string_spec(p@) == Some(s@),
{
    let head = string_head_bytes();
    let tail = payload_tail_bytes();
    let h = head.len();
    let t = tail.len();
    if p.len() < h + t {
        return None;
    }
    let mut i: usize = 0;
    while i < h
        invariant
            i <= h,
            h == string_head().len(),
            head@ == string_head(),
            p@.len() >= h + t,
            forall|k: int| 0 <= k < i ==> p@[k] == string_head()[k],
        decreases h - i,
    {
        if p[i] != head[i] {
            proof {
                assert(p@.subrange(0, h as int)[i as int] != string_head()[i as int]);
            }
            return None;
        }
        i = i + 1;
    }
    assert(p@.subrange(0, h as int) =~= string_head());
    let mut j: usize = 0;
    while j < t
        invariant
            j <= t,
            t == payload_tail().len(),
            tail@ == payload_tail(),
            p@.len() >= h + t,
            forall|k: int| 0 <= k < j ==> p@[p@.len() - t + k] == payload_tail()[k],
        decreases t - j,
    {
        if p[p.len() - t + j] != tail[j] {
            proof {
                assert(p@.subrange(p@.len() - t, p@.len() as int)[j as int] != payload_tail()[j as int]);
            }
            return None;
        }
        j = j + 1;
    }
    assert(p@.subrange(p@.len() - t, p@.len() as int) =~= payload_tail());
    let mut middle: Vec<u8> = Vec::new();
    let mut k: usize = h;
    while k < p.len() - t
        invariant
            h <= k <= p@.len() - t,
            middle@ == p@.subrange(h as int, k as int),
        decreases p@.len() - t - k,
    {
        middle.push(p[k]);
        k = k + 1;
        assert(middle@ =~= p@.subrange(h as int, k as int));
    }
    decode_json_string(middle.as_slice())
}

/// The decimal digits of `n`, in ASCII, without leading zeros.
pub open spec fn decimal_digits(n: nat) -> Seq<u8>
    decreases n,
{
    if n < 10 {
        seq![(48 + n) as u8]
    } else {
        decimal_digits(n / 10).push((48 + n % 10) as u8)
    }
}

/// The number that `serde_json` reads from the JSON text `b`, if `b` is one that fits.
pub uninterp spec fn json_u64_value(b: Seq<u8>) -> Option<u64>;

/// Relies on `serde_json::to_vec`: the JSON text of a number, its decimal digits. Writing
/// into a `Vec` cannot fail, and a number serializes without error.
#[verifier::external_body]
fn encode_json_u64(n: u64) -> (r: Vec<u8>)
    ensures
        r@ == decimal_digits(n as nat),
{
    serde_json::to_vec(&n).unwrap()
}

/// Relies on `serde_json::from_slice`: reads a JSON number that fits in a `u64`.
#[verifier::external_body]
fn decode_json_u64(b: &[u8]) -> (r: Option<u64>)
    ensures
        r == json_u64_value(b@),
{
    serde_json::from_slice::<u64>(b).ok()
}

/// `[{"Entity":`
pub open spec fn entity_head() -> Seq<u8> {
    seq![91u8, 123u8, 34u8, 69u8, 110u8, 116u8, 105u8, 116u8, 121u8, 34u8, 58u8]
}

/// The payload of a single entity field holding `e`.
pub open spec fn entity_payload_spec(e: usize) -> Seq<u8> {
    entity_head() + decimal_digits(e as nat) + payload_tail()
}

/// The entity held by a single-entity-field payload, if `p` is one.
pub open spec fn payload_entity_spec(p: Seq<u8>) -> Option<u64> {
    let h = entity_head().len();
    let t = payload_tail().len();
    if p.len() >= h + t && p.subrange(0, h as int) == entity_head()
        && p.subrange(p.len() - t, p.len() as int) == payload_tail() {
        json_u64_value(p.subrange(h as int, p.len() - t))
    } else {
        None
    }
}

/// The payload of a single entity field holding `e`.
pub fn entity_payload(e: usize) -> (r: Vec<u8>)
    ensures
        r@ == entity_payload_spec(e),
{
    let body = encode_json_u64(e as u64);
    let mut out: Vec<u8> = vec![91u8, 123u8, 34u8, 69u8, 110u8, 116u8, 105u8, 116u8, 121u8, 34u8, 58u8];
    assert(out@ =~= entity_head());
    let mut i: usize = 0;
    while i < body.len()
        invariant
            i <= body@.len(),
            out@ == entity_head() + body@.subrange(0, i as int),
        decreases body@.len() - i,
    {
        out.push(body[i]);
        i = i + 1;
        assert(out@ =~= entity_head() + body@.subrange(0, i as int));
    }
    assert(body@.subrange(0, i as int) =~= body@);
    out.push(125u8);
    out.push(93u8);
    assert(out@ =~= entity_payload_spec(e));
    out
}

/// The entity held by a single-entity-field payload, if `p` is one.
pub fn payload_entity(p: &[u8]) -> (r: Option<u64>)
    ensures
        r == payload_entity_spec(p@),
{
    let head: Vec<u8> = vec![91u8, 123u8, 34u8, 69u8, 110u8, 116u8, 105u8, 116u8, 121u8, 34u8, 58u8];
    assert(head@ =~= entity_head());
    let tail = payload_tail_bytes();
    let h = head.len();
    let t = tail.len();
    if p.len() < h + t {
        return None;
    }
    let mut i: usize = 0;
    while i < h
        invariant
            i <= h,
            h == entity_head().len(),
            head@ == entity_head(),
            p@.len() >= h + t,
            forall|k: int| 0 <= k < i ==> p@[k] == entity_head()[k],
        decreases h - i,
    {
        if p[i] != head[i] {
            proof {
                assert(p@.subrange(0, h as int)[i as int] != entity_head()[i as int]);
            }
            return None;
        }
        i = i + 1;
    }
    assert(p@.subrange(0, h as int) =~= entity_head());
    let mut j: usize = 0;
    while j < t
        invariant
            j <= t,
            t == payload_tail().len(),
            tail@ == payload_tail(),
            p@.len() >= h + t,
            forall|k: int| 0 <= k < j ==> p@[p@.len() - t + k] == payload_tail()[k],
        decreases t - j,
    {
        if p[p.len() - t + j] != tail[j] {
            proof {
                assert(p@.subrange(p@.len() - t, p@.len() as int)[j as int] != payload_tail()[j as int]);
            }
            return None;
        }
        j = j + 1;
    }
    assert(p@.subrange(p@.len() - t, p@.len() as int) =~= payload_tail());
    let mut middle: Vec<u8> = Vec::new();
    let mut k: usize = h;
    while k < p.len() - t
        invariant
            h <= k <= p@.len() - t,
            middle@ == p@.subrange(h as int, k as int),
        decreases p@.len() - t - k,
    {
        middle.push(p[k]);
        k = k + 1;
        assert(middle@ =~= p@.subrange(h as int, k as int));
    }
    decode_json_u64(middle.as_slice())
}

} // verus!
