//! The different values of a column, in order.

use vstd::prelude::*;

verus! {

/// Whether a sequence strictly increases.
pub open spec fn increasing(s: Seq<i64>) -> bool {
    forall|i: int, j: int| 0 <= i < j < s.len() ==> s[i] < s[j]
}

/// Whether two sequences hold the same values.
pub open spec fn same_values(a: Seq<i64>, b: Seq<i64>) -> bool {
    forall|v: i64| #[trigger] a.contains(v) <==> b.contains(v)
}

/// The different values of a sequence, in increasing order.
pub open spec fn distinct_of(s: Seq<i64>) -> Seq<i64> {
    choose|r: Seq<i64>| increasing(r) && same_values(r, s)
}

/// An increasing sequence is determined by the values that it holds.
pub proof fn lemma_increasing_unique(a: Seq<i64>, b: Seq<i64>)
    requires
        increasing(a),
        increasing(b),
        same_values(a, b),
    ensures
        a == b,
    decreases a.len(),
{
    if a.len() == 0 {
        if b.len() > 0 {
            assert(b.contains(b[0]));
            assert(a.contains(b[0]));
        }
        assert(a =~= b);
    } else {
        assert(a.contains(a[0]));
        assert(b.contains(a[0]));
        assert(b.len() > 0);
        let x = a.last();
        let y = b.last();
        assert(a.contains(x));
        assert(b.contains(x));
        assert(b.contains(y));
        assert(a.contains(y));
        let i = choose|i: int| 0 <= i < b.len() && b[i] == x;
        let j = choose|j: int| 0 <= j < a.len() && a[j] == y;
        assert(x <= y && y <= x);
        let p = a.drop_last();
        let q = b.drop_last();
        assert forall|v: i64| #[trigger] p.contains(v) <==> q.contains(v) by {
            if p.contains(v) {
                let k = choose|k: int| 0 <= k < p.len() && p[k] == v;
                assert(a[k] == v && v < x);
                assert(a.contains(v));
                assert(b.contains(v));
                let l = choose|l: int| 0 <= l < b.len() && b[l] == v;
                assert(q[l] == v);
            }
            if q.contains(v) {
                let k = choose|k: int| 0 <= k < q.len() && q[k] == v;
                assert(b[k] == v && v < y);
                assert(b.contains(v));
                assert(a.contains(v));
                let l = choose|l: int| 0 <= l < a.len() && a[l] == v;
                assert(p[l] == v);
            }
        }
        lemma_increasing_unique(p, q);
        assert(a =~= p.push(x));
        assert(b =~= q.push(y));
    }
}

/// Every sequence has its different values in order.
pub proof fn lemma_distinct_of(s: Seq<i64>)
    ensures
        increasing(distinct_of(s)),
        same_values(distinct_of(s), s),
        distinct_of(s).len() <= s.len(),
    decreases s.len(),
{
    if s.len() == 0 {
        let r = Seq::<i64>::empty();
        assert(increasing(r) && same_values(r, s)) by {
            assert(r =~= s);
        }
        lemma_increasing_unique(r, distinct_of(s));
    } else {
        let t = s.drop_last();
        let x = s.last();
        lemma_distinct_of(t);
        let d = distinct_of(t);
        assert(s =~= t.push(x));
        let r = if d.contains(x) { d } else { with_value(d, x) };
        if !d.contains(x) {
            lemma_with_value(d, x);
        }
        assert forall|v: i64| #[trigger] r.contains(v) <==> s.contains(v) by {
            lemma_push_contains(t, x, v);
            assert(d.contains(v) <==> t.contains(v));
        }
        assert(increasing(r) && same_values(r, s));
        lemma_increasing_unique(r, distinct_of(s));
    }
}

/// An increasing sequence with a value put in its place.
spec fn with_value(s: Seq<i64>, x: i64) -> Seq<i64>
    decreases s.len(),
{
    if s.len() == 0 || s.last() < x {
        s.push(x)
    } else {
        with_value(s.drop_last(), x).push(s.last())
    }
}

proof fn lemma_with_value(s: Seq<i64>, x: i64)
    requires
        increasing(s),
        !s.contains(x),
    ensures
        increasing(with_value(s, x)),
        forall|v: i64| #[trigger] with_value(s, x).contains(v) <==> (s.contains(v) || v == x),
        with_value(s, x).len() == s.len() + 1,
    decreases s.len(),
{
    if s.len() == 0 || s.last() < x {
        assert forall|v: i64| #[trigger] with_value(s, x).contains(v) <==> (s.contains(v) || v
            == x) by {
            lemma_push_contains(s, x, v);
        }
    } else {
        let t = s.drop_last();
        let y = s.last();
        assert(s.contains(y));
        assert forall|v: i64| t.contains(v) implies #[trigger] s.contains(v) by {
            let k = choose|k: int| 0 <= k < t.len() && t[k] == v;
            assert(s[k] == v);
        }
        lemma_with_value(t, x);
        let r = with_value(t, x);
        assert(s =~= t.push(y));
        assert forall|v: i64| #[trigger] with_value(s, x).contains(v) <==> (s.contains(v) || v
            == x) by {
            lemma_push_contains(r, y, v);
            lemma_push_contains(t, y, v);
        }
        assert forall|i: int| 0 <= i < r.len() implies #[trigger] r[i] < y by {
            assert(r.contains(r[i]));
            if r[i] != x {
                assert(t.contains(r[i]));
                let k = choose|k: int| 0 <= k < t.len() && t[k] == r[i];
                assert(s[k] == r[i]);
            }
        }
    }
}

/// Merges two increasing sequences into one, keeping each value once.
fn merge(a: &Vec<i64>, b: &Vec<i64>) -> (r: Vec<i64>)
    requires
        increasing(a@),
        increasing(b@),
    ensures
        increasing(r@),
        forall|v: i64| #[trigger] r@.contains(v) <==> (a@.contains(v) || b@.contains(v)),
        r.len() <= a.len() + b.len(),
{
    let mut r: Vec<i64> = Vec::new();
    let mut i: usize = 0;
    let mut j: usize = 0;
    while i < a.len() || j < b.len()
        invariant
            increasing(a@),
            increasing(b@),
            increasing(r@),
            i <= a.len(),
            j <= b.len(),
            r.len() <= i + j,
            forall|k: int, l: int| 0 <= k < r.len() && i <= l < a.len() ==> r[k] < a[l],
            forall|k: int, l: int| 0 <= k < r.len() && j <= l < b.len() ==> r[k] < b[l],
            forall|v: i64| #[trigger]
                r@.contains(v) <==> (a@.take(i as int).contains(v) || b@.take(j as int).contains(
                    v,
                )),
        decreases a.len() - i + b.len() - j,
    {
        let ghost before = r@;
        let ghost (i0, j0) = (i as int, j as int);
        let next: i64 = if i < a.len() && (j >= b.len() || a[i] <= b[j]) { a[i] } else { b[j] };
        if i < a.len() && a[i] == next {
            i = i + 1;
        }
        if j < b.len() && b[j] == next {
            j = j + 1;
        }
        r.push(next);
        proof {
            assert(a@.take(i as int) =~= if i > i0 { a@.take(i0).push(next) } else { a@.take(i0) });
            assert(b@.take(j as int) =~= if j > j0 { b@.take(j0).push(next) } else { b@.take(j0) });
            assert forall|v: i64| #[trigger] r@.contains(v) <==> (a@.take(i as int).contains(v)
                || b@.take(j as int).contains(v)) by {
                lemma_push_contains(before, next, v);
                lemma_push_contains(a@.take(i0), next, v);
                lemma_push_contains(b@.take(j0), next, v);
                assert(before.contains(v) <==> (a@.take(i0).contains(v) || b@.take(j0).contains(
                    v,
                )));
            }
        }
    }
    proof {
        assert(a@.take(a.len() as int) =~= a@);
        assert(b@.take(b.len() as int) =~= b@);
    }
    r
}

proof fn lemma_push_contains(s: Seq<i64>, x: i64, v: i64)
    ensures
        s.push(x).contains(v) <==> (s.contains(v) || v == x),
{
    let t = s.push(x);
    if s.contains(v) {
        let k = choose|k: int| 0 <= k < s.len() && s[k] == v;
        assert(t[k] == v);
    }
    if v == x {
        assert(t[s.len() as int] == v);
    }
    if t.contains(v) {
        let k = choose|k: int| 0 <= k < t.len() && t[k] == v;
        if k < s.len() {
            assert(s[k] == v);
        }
    }
}

fn distinct_range(values: &Vec<i64>, from: usize, to: usize) -> (r: Vec<i64>)
    requires
        from <= to <= values.len(),
    ensures
        increasing(r@),
        same_values(r@, values@.subrange(from as int, to as int)),
        r.len() <= to - from,
    decreases to - from,
{
    let ghost part = values@.subrange(from as int, to as int);
    let mut r: Vec<i64> = Vec::new();
    if to - from == 0 {
        assert(r@ =~= part);
        return r;
    }
    if to - from == 1 {
        r.push(values[from]);
        assert(r@ =~= part);
        return r;
    }
    let mid: usize = from + (to - from) / 2;
    let left: Vec<i64> = distinct_range(values, from, mid);
    let right: Vec<i64> = distinct_range(values, mid, to);
    r = merge(&left, &right);
    proof {
        let p = values@.subrange(from as int, mid as int);
        let q = values@.subrange(mid as int, to as int);
        assert(part =~= p + q);
        assert forall|v: i64| #[trigger] r@.contains(v) <==> part.contains(v) by {
            assert(left@.contains(v) <==> p.contains(v));
            assert(right@.contains(v) <==> q.contains(v));
            if p.contains(v) {
                let k = choose|k: int| 0 <= k < p.len() && p[k] == v;
                assert(part[k] == v);
            }
            if q.contains(v) {
                let k = choose|k: int| 0 <= k < q.len() && q[k] == v;
                assert(part[p.len() + k] == v);
            }
            if part.contains(v) {
                let k = choose|k: int| 0 <= k < part.len() && part[k] == v;
                if k < p.len() {
                    assert(p[k] == v);
                } else {
                    assert(q[k - p.len()] == v);
                }
            }
        }
    }
    r
}

/// The different values of a column, in increasing order.
pub fn distinct_values(values: &Vec<i64>) -> (r: Vec<i64>)
    ensures
        r@ == distinct_of(values@),
{
    let r: Vec<i64> = distinct_range(values, 0, values.len());
    proof {
        assert(values@.subrange(0, values.len() as int) =~= values@);
        let d = distinct_of(values@);
        lemma_distinct_of(values@);
        assert(same_values(r@, d)) by {
            assert forall|v: i64| #[trigger] r@.contains(v) <==> d.contains(v) by {
                assert(d.contains(v) <==> values@.contains(v));
            }
        }
        lemma_increasing_unique(r@, d);
    }
    r
}

} // verus!
