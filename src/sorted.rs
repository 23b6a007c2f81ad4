//! Strictly increasing id lists: the representation of every id set in the store.
use vstd::prelude::*;

verus! {

/// Every element is smaller than the next one: sorted, without duplicates.
pub open spec fn strictly_sorted(s: Seq<usize>) -> bool {
    forall|i: int, j: int| 0 <= i < j < s.len() ==> s[i] < s[j]
}

/// The position at which `x` belongs in the sorted list `v`: the number of elements below it.
fn lower_bound(v: &Vec<usize>, x: usize) -> (pos: usize)
    requires
        strictly_sorted(v@),
    ensures
        pos <= v@.len(),
        forall|i: int| 0 <= i < pos ==> v@[i] < x,
        forall|i: int| pos <= i < v@.len() ==> v@[i] >= x,
{
    let mut i: usize = 0;
    while i < v.len() && v[i] < x
        invariant
            i <= v@.len(),
            strictly_sorted(v@),
            forall|k: int| 0 <= k < i ==> v@[k] < x,
        decreases v@.len() - i,
    {
        i = i + 1;
    }
    i
}

/// Adds `x` to the sorted list `v`, keeping it sorted; no effect if it is already there.
pub fn insert_sorted(v: &mut Vec<usize>, x: usize)
    requires
        strictly_sorted(old(v)@),
    ensures
        strictly_sorted(final(v)@),
        forall|y: usize| #[trigger] final(v)@.contains(y) <==> (old(v)@.contains(y) || y == x),
{
    let pos = lower_bound(v, x);
    if pos < v.len() && v[pos] == x {
        return;
    }
    v.insert(pos, x);
    proof {
        assert forall|y: usize| #[trigger] v@.contains(y) <==> (old(v)@.contains(y) || y == x) by {
            if v@.contains(y) {
                let k = choose|k: int| 0 <= k < v@.len() && v@[k] == y;
                if k < pos {
                    assert(old(v)@[k] == y);
                } else if k > pos {
                    assert(old(v)@[k - 1] == y);
                }
            }
            if old(v)@.contains(y) {
                let k = choose|k: int| 0 <= k < old(v)@.len() && old(v)@[k] == y;
                if k < pos {
                    assert(v@[k] == y);
                } else {
                    assert(v@[k + 1] == y);
                }
            }
            if y == x {
                assert(v@[pos as int] == x);
            }
        }
    }
}

/// Takes `x` out of the sorted list `v`; no effect if it is not there.
pub fn remove_sorted(v: &mut Vec<usize>, x: usize)
    requires
        strictly_sorted(old(v)@),
    ensures
        strictly_sorted(final(v)@),
        forall|y: usize| #[trigger] final(v)@.contains(y) <==> (old(v)@.contains(y) && y != x),
{
    let pos = lower_bound(v, x);
    if pos < v.len() && v[pos] == x {
        v.remove(pos);
        proof {
            assert forall|y: usize| #[trigger] v@.contains(y) <==> (old(v)@.contains(y) && y != x) by {
                if v@.contains(y) {
                    let k = choose|k: int| 0 <= k < v@.len() && v@[k] == y;
                    if k < pos {
                        assert(old(v)@[k] == y);
                    } else {
                        assert(old(v)@[k + 1] == y);
                    }
                }
                if old(v)@.contains(y) && y != x {
                    let k = choose|k: int| 0 <= k < old(v)@.len() && old(v)@[k] == y;
                    if k < pos {
                        assert(v@[k] == y);
                    } else {
                        assert(k != pos);
                        assert(v@[k - 1] == y);
                    }
                }
            }
        }
    } else {
        proof {
            assert forall|y: usize| #[trigger] v@.contains(y) implies y != x by {
                let k = choose|k: int| 0 <= k < v@.len() && v@[k] == y;
            }
        }
    }
}

/// The sorted union of two sorted lists.
pub fn merge_sorted(a: &Vec<usize>, b: &Vec<usize>) -> (r: Vec<usize>)
    requires
        strictly_sorted(a@),
        strictly_sorted(b@),
    ensures
        strictly_sorted(r@),
        forall|y: usize| #[trigger] r@.contains(y) <==> (a@.contains(y) || b@.contains(y)),
{
    let mut r = a.clone();
    let mut i: usize = 0;
    while i < b.len()
        invariant
            i <= b@.len(),
            strictly_sorted(r@),
            strictly_sorted(b@),
            forall|k: int| 0 <= k < i ==> r@.contains(#[trigger] b@[k]),
            forall|y: usize| a@.contains(y) ==> #[trigger] r@.contains(y),
            forall|y: usize| #[trigger] r@.contains(y) ==> (a@.contains(y) || b@.contains(y)),
        decreases b@.len() - i,
    {
        insert_sorted(&mut r, b[i]);
        i = i + 1;
    }
    proof {
        assert forall|y: usize| b@.contains(y) implies #[trigger] r@.contains(y) by {
            let k = choose|k: int| 0 <= k < b@.len() && b@[k] == y;
        }
    }
    r
}

/// A list without duplicates, all of whose elements are below `n`, has at most `n` elements.
pub proof fn lemma_bounded_len(s: Seq<usize>, n: nat)
    requires
        s.no_duplicates(),
        forall|k: int| 0 <= k < s.len() ==> (#[trigger] s[k]) < n,
    ensures
        s.len() <= n,
    decreases n,
{
    if n == 0 {
        if s.len() > 0 {
            assert(s[0] < n);
        }
    } else if s.contains((n - 1) as usize) {
        let j = s.index_of((n - 1) as usize);
        let t = s.remove(j);
        assert forall|k: int| 0 <= k < t.len() implies (#[trigger] t[k]) < n - 1 by {
            if k < j {
                assert(t[k] == s[k]);
            } else {
                assert(t[k] == s[k + 1]);
            }
        }
        assert(t.no_duplicates()) by {
            assert forall|a: int, b: int| 0 <= a < b < t.len() implies t[a] != t[b] by {
                let a2 = if a < j { a } else { a + 1 };
                let b2 = if b < j { b } else { b + 1 };
                assert(t[a] == s[a2] && t[b] == s[b2]);
            }
        }
        lemma_bounded_len(t, (n - 1) as nat);
    } else {
        assert forall|k: int| 0 <= k < s.len() implies (#[trigger] s[k]) < n - 1 by {
            assert(s[k] != n - 1);
        }
        lemma_bounded_len(s, (n - 1) as nat);
    }
}

/// Appends every element of `items` to `queue`.
pub fn append_ids(queue: &mut Vec<usize>, items: &Vec<usize>)
    ensures
        final(queue)@ == old(queue)@ + items@,
{
    let mut i: usize = 0;
    while i < items.len()
        invariant
            i <= items@.len(),
            queue@ == old(queue)@ + items@.subrange(0, i as int),
        decreases items@.len() - i,
    {
        queue.push(items[i]);
        i = i + 1;
        assert(queue@ =~= old(queue)@ + items@.subrange(0, i as int));
    }
    assert(items@.subrange(0, i as int) =~= items@);
}

/// Adds every element of `part` to the sorted list `r`.
pub fn absorb(r: &mut Vec<usize>, part: &Vec<usize>)
    requires
        strictly_sorted(old(r)@),
    ensures
        strictly_sorted(final(r)@),
        forall|y: usize| #[trigger] final(r)@.contains(y) <==> (old(r)@.contains(y) || part@.contains(y)),
{
    let mut m: usize = 0;
    while m < part.len()
        invariant
            m <= part@.len(),
            strictly_sorted(r@),
            forall|k: int| 0 <= k < m ==> r@.contains(#[trigger] part@[k]),
            forall|y: usize| old(r)@.contains(y) ==> #[trigger] r@.contains(y),
            forall|y: usize| #[trigger] r@.contains(y) ==> (old(r)@.contains(y) || part@.contains(y)),
        decreases part@.len() - m,
    {
        insert_sorted(r, part[m]);
        m = m + 1;
    }
    proof {
        assert forall|y: usize| part@.contains(y) implies #[trigger] r@.contains(y) by {
            let k = choose|k: int| 0 <= k < part@.len() && part@[k] == y;
        }
    }
}

/// Inserting an element that is not there keeps a list free of duplicates.
pub proof fn lemma_insert_fresh(s: Seq<usize>, pos: int, x: usize)
    requires
        0 <= pos <= s.len(),
        s.no_duplicates(),
        !s.contains(x),
    ensures
        s.insert(pos, x).no_duplicates(),
        forall|y: usize| #[trigger] s.insert(pos, x).contains(y) <==> (s.contains(y) || y == x),
{
    let t = s.insert(pos, x);
    assert forall|a: int| 0 <= a < t.len() implies #[trigger] t[a] == (if a < pos { s[a] } else if a == pos { x } else { s[a - 1] }) by {}
    assert forall|a: int, b: int| 0 <= a < b < t.len() implies t[a] != t[b] by {
        if a != pos && b != pos {
            let a2 = if a < pos { a } else { a - 1 };
            let b2 = if b < pos { b } else { b - 1 };
            assert(t[a] == s[a2] && t[b] == s[b2]);
        } else if a == pos {
            let b2 = b - 1;
            assert(t[b] == s[b2]);
        } else {
            let a2 = if a < pos { a } else { a - 1 };
            assert(t[a] == s[a2]);
        }
    }
    assert forall|y: usize| #[trigger] t.contains(y) <==> (s.contains(y) || y == x) by {
        if t.contains(y) {
            let a = choose|a: int| 0 <= a < t.len() && t[a] == y;
            if a < pos {
                assert(s[a] == y);
            } else if a > pos {
                assert(s[a - 1] == y);
            }
        }
        if s.contains(y) {
            let a = choose|a: int| 0 <= a < s.len() && s[a] == y;
            if a < pos {
                assert(t[a] == y);
            } else {
                assert(t[a + 1] == y);
            }
        }
        if y == x {
            assert(t[pos] == x);
        }
    }
}

/// A copy of an id list.
pub fn copy_ids(v: &Vec<usize>) -> (r: Vec<usize>)
    ensures
        r@ == v@,
{
    let r = v.clone();
    assert(r@ =~= v@);
    r
}

} // verus!
