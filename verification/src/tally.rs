//! Counting, numbering and sorted-set helpers over integer sequences.
use vstd::prelude::*;

verus! {

/// How often `x` occurs in `s`.
pub open spec fn count_of(s: Seq<u32>, x: u32) -> nat
    decreases s.len(),
{
    if s.len() == 0 {
        0
    } else {
        count_of(s.drop_last(), x) + if s.last() == x {
            1nat
        } else {
            0nat
        }
    }
}

/// Pushing adds one occurrence of what is pushed.
pub proof fn lemma_count_push(s: Seq<u32>, y: u32, x: u32)
    ensures
        count_of(s.push(y), x) == count_of(s, x) + if y == x {
            1nat
        } else {
            0nat
        },
{
    assert(s.push(y).drop_last() == s);
}

/// No element occurs more often than the sequence is long.
pub proof fn lemma_count_bound(s: Seq<u32>, x: u32)
    ensures
        count_of(s, x) <= s.len(),
    decreases s.len(),
{
    if s.len() > 0 {
        lemma_count_bound(s.drop_last(), x);
    }
}

/// Occurrences in a concatenation add up.
pub proof fn lemma_count_concat(a: Seq<u32>, b: Seq<u32>, x: u32)
    ensures
        count_of(a + b, x) == count_of(a, x) + count_of(b, x),
    decreases b.len(),
{
    if b.len() == 0 {
        assert(a + b == a);
    } else {
        assert((a + b).drop_last() == a + b.drop_last());
        lemma_count_concat(a, b.drop_last(), x);
    }
}

/// Position `f` is where `x` first occurs in `s`.
pub open spec fn first_at(s: Seq<u32>, f: int, x: u32) -> bool {
    &&& 0 <= f < s.len()
    &&& s[f] == x
    &&& forall|u: int| 0 <= u < f ==> #[trigger] s[u] != x
}

/// The ids in `s` other than `none` are `0..n`, numbered in order of first
/// occurrence.
pub open spec fn numbered(s: Seq<u32>, none: u32, n: nat) -> bool {
    &&& forall|t: int| 0 <= t < s.len() && #[trigger] s[t] != none ==> s[t] < n
    &&& forall|c: u32| c < n && c != none ==> #[trigger] s.contains(c)
    &&& forall|t: int|
        0 <= t < s.len() && #[trigger] s[t] != none && s[t] > 0 ==> s.take(t).contains(
            (s[t] - 1) as u32,
        )
}

/// Where a numbered sequence holds an id among its first `t`, it holds every
/// smaller one there too.
proof fn lemma_smaller_ids(s: Seq<u32>, none: u32, n: nat, t: int, x: u32, y: u32)
    requires
        numbered(s, none, n),
        0 <= t <= s.len(),
        s.take(t).contains(y),
        x <= y,
        n <= none,
        y != none,
    ensures
        s.take(t).contains(x),
    decreases y,
{
    if x < y {
        let u = choose|u: int| 0 <= u < s.take(t).len() && s.take(t)[u] == y;
        assert(s[u] == y);
        let w = choose|w: int| 0 <= w < s.take(u).len() && s.take(u)[w] == (y - 1) as u32;
        assert(s.take(t)[w] == (y - 1) as u32);
        lemma_smaller_ids(s, none, n, t, x, (y - 1) as u32);
    }
}

/// One grouping has one numbering: sequences that leave out the same places and
/// group the others alike, both numbered in order of first occurrence, are the
/// same.
pub proof fn numberings_agree(a: Seq<u32>, b: Seq<u32>, none: u32, n: nat, m: nat)
    requires
        numbered(a, none, n),
        numbered(b, none, m),
        n <= none,
        m <= none,
        a.len() == b.len(),
        forall|t: int| 0 <= t < a.len() ==> (#[trigger] a[t] == none <==> b[t] == none),
        forall|t: int, u: int|
            #![trigger a[t], a[u]]
            0 <= t < a.len() && 0 <= u < a.len() && a[t] != none && a[u] != none ==> (a[t] == a[u]
                <==> b[t] == b[u]),
    ensures
        a == b,
        n == m,
{
    lemma_same_ids(a, b, none, n, m, a.len() as int);
    assert(a.take(a.len() as int) =~= a);
    assert(b.take(b.len() as int) =~= b);
    lemma_no_more_ids(a, none, n, m);
    lemma_no_more_ids(a, none, m, n);
}

/// A numbered sequence has no id to spare.
proof fn lemma_no_more_ids(s: Seq<u32>, none: u32, n: nat, m: nat)
    requires
        numbered(s, none, n),
        numbered(s, none, m),
        n <= none,
        m <= none,
    ensures
        m <= n,
{
    if n < m {
        assert(s.contains(n as u32));
        let t = choose|t: int| 0 <= t < s.len() && s[t] == n as u32;
        assert(s[t] < n);
    }
}

proof fn lemma_same_ids(a: Seq<u32>, b: Seq<u32>, none: u32, n: nat, m: nat, upto: int)
    requires
        numbered(a, none, n),
        numbered(b, none, m),
        n <= none,
        m <= none,
        a.len() == b.len(),
        0 <= upto <= a.len(),
        forall|t: int| 0 <= t < a.len() ==> (#[trigger] a[t] == none <==> b[t] == none),
        forall|t: int, u: int|
            #![trigger a[t], a[u]]
            0 <= t < a.len() && 0 <= u < a.len() && a[t] != none && a[u] != none ==> (a[t] == a[u]
                <==> b[t] == b[u]),
    ensures
        a.take(upto) == b.take(upto),
    decreases upto,
{
    if upto > 0 {
        let t = upto - 1;
        lemma_same_ids(a, b, none, n, m, t);
        let had = a.take(t);
        assert(a[t] == b[t]) by {
            if a[t] != none {
                if had.contains(a[t]) {
                    let u = choose|u: int| 0 <= u < had.len() && had[u] == a[t];
                    assert(a[u] == a[t] && b.take(t)[u] == b[u]);
                } else if had.contains(b[t]) {
                    let u = choose|u: int| 0 <= u < had.len() && had[u] == b[t];
                    assert(b.take(t)[u] == b[u]);
                    assert(a[u] == had[u]);
                    assert(a[t] == a[u]);
                } else if a[t] < b[t] {
                    lemma_smaller_ids(b, none, m, t, a[t], (b[t] - 1) as u32);
                } else if b[t] < a[t] {
                    lemma_smaller_ids(a, none, n, t, b[t], (a[t] - 1) as u32);
                }
            }
        }
        assert(a.take(upto) =~= had.push(a[t]));
        assert(b.take(upto) =~= b.take(t).push(b[t]));
    } else {
        assert(a.take(upto) =~= b.take(upto));
    }
}

/// Strictly ascending: a set listed in order.
pub open spec fn ascending(s: Seq<u32>) -> bool {
    forall|i: int, j: int| 0 <= i < j < s.len() ==> #[trigger] s[i] < #[trigger] s[j]
}

/// Strictly ascending, on wide keys.
pub open spec fn ascending64(s: Seq<u64>) -> bool {
    forall|i: int, j: int| 0 <= i < j < s.len() ==> #[trigger] s[i] < #[trigger] s[j]
}

/// Put `x` into the ascending list, unless it is there already.
pub fn insert_sorted(v: &mut Vec<u32>, x: u32)
    requires
        ascending(old(v)@),
    ensures
        ascending(final(v)@),
        forall|y: u32| #[trigger] final(v)@.contains(y) <==> (old(v)@.contains(y) || y == x),
{
    let ghost v0 = v@;
    let mut lo: usize = 0;
    let mut hi: usize = v.len();
    while lo < hi
        invariant
            v@ == v0,
            ascending(v0),
            lo <= hi <= v0.len(),
            forall|i: int| 0 <= i < lo ==> #[trigger] v0[i] < x,
            forall|i: int| hi <= i < v0.len() ==> x <= #[trigger] v0[i],
        decreases hi - lo,
    {
        let mid: usize = lo + (hi - lo) / 2;
        if v[mid] < x {
            lo = mid + 1;
        } else {
            hi = mid;
        }
    }
    if lo < v.len() && v[lo] == x {
        assert(v0[lo as int] == x);
    } else {
        v.insert(lo, x);
        proof {
            assert(v@[lo as int] == x);
            assert forall|y: u32| #[trigger] v@.contains(y) <==> (v0.contains(y) || y == x) by {
                if v0.contains(y) {
                    let i = v0.index_of(y);
                    assert(v@[if i < lo { i } else { i + 1 }] == y);
                }
                if v@.contains(y) {
                    let i = v@.index_of(y);
                    if i != lo {
                        assert(v0[if i < lo { i } else { i - 1 }] == y);
                    }
                }
            }
        }
    }
}

/// Put `x`, which is not in it, into the ascending list.
pub fn insert_key(v: &mut Vec<u64>, x: u64)
    requires
        ascending64(old(v)@),
        !old(v)@.contains(x),
    ensures
        ascending64(final(v)@),
        final(v)@.len() == old(v)@.len() + 1,
        forall|y: u64| #[trigger] final(v)@.contains(y) <==> (old(v)@.contains(y) || y == x),
{
    let ghost v0 = v@;
    let mut lo: usize = 0;
    let mut hi: usize = v.len();
    while lo < hi
        invariant
            v@ == v0,
            ascending64(v0),
            lo <= hi <= v0.len(),
            forall|i: int| 0 <= i < lo ==> #[trigger] v0[i] < x,
            forall|i: int| hi <= i < v0.len() ==> x <= #[trigger] v0[i],
        decreases hi - lo,
    {
        let mid: usize = lo + (hi - lo) / 2;
        if v[mid] < x {
            lo = mid + 1;
        } else {
            hi = mid;
        }
    }
    assert(lo < v0.len() ==> v0[lo as int] != x) by {
        if lo < v0.len() && v0[lo as int] == x {
            assert(v0.contains(x));
        }
    }
    v.insert(lo, x);
    proof {
        assert(v@[lo as int] == x);
        assert forall|y: u64| #[trigger] v@.contains(y) <==> (v0.contains(y) || y == x) by {
            if v0.contains(y) {
                let i = v0.index_of(y);
                assert(v@[if i < lo { i } else { i + 1 }] == y);
            }
            if v@.contains(y) {
                let i = v@.index_of(y);
                if i != lo {
                    assert(v0[if i < lo { i } else { i - 1 }] == y);
                }
            }
        }
    }
}

} // verus!
