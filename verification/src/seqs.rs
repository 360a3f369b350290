//! Facts about `Seq::filter` that the candidate lists rely on.
use vstd::prelude::*;

verus! {

/// Filtering twice is filtering once by the conjunction of both predicates.
pub proof fn lemma_filter_and<A>(s: Seq<A>, p: spec_fn(A) -> bool, q: spec_fn(A) -> bool)
    ensures
        s.filter(p).filter(q) == s.filter(|x: A| p(x) && q(x)),
    decreases s.len(),
{
    reveal(Seq::filter);
    if s.len() > 0 {
        lemma_filter_and(s.drop_last(), p, q);
        let t = s.drop_last().filter(p);
        if p(s.last()) {
            t.lemma_filter_push(s.last(), q);
        }
    }
}

/// Two predicates that agree on every element of `s` filter it alike.
pub proof fn lemma_filter_ext<A>(s: Seq<A>, p: spec_fn(A) -> bool, q: spec_fn(A) -> bool)
    requires
        forall|i: int| 0 <= i < s.len() ==> p(s[i]) == q(s[i]),
    ensures
        s.filter(p) == s.filter(q),
    decreases s.len(),
{
    reveal(Seq::filter);
    if s.len() > 0 {
        let d = s.drop_last();
        assert forall|i: int| 0 <= i < d.len() implies p(d[i]) == q(d[i]) by {
            assert(d[i] == s[i]);
        }
        lemma_filter_ext(d, p, q);
    }
}

/// A filter that keeps every element leaves the sequence as it is.
pub proof fn lemma_filter_keep_all<A>(s: Seq<A>, p: spec_fn(A) -> bool)
    requires
        forall|i: int| 0 <= i < s.len() ==> p(s[i]),
    ensures
        s.filter(p) == s,
    decreases s.len(),
{
    reveal(Seq::filter);
    if s.len() > 0 {
        let d = s.drop_last();
        assert forall|i: int| 0 <= i < d.len() implies p(d[i]) by {
            assert(d[i] == s[i]);
        }
        lemma_filter_keep_all(d, p);
        assert(d.push(s.last()) =~= s);
    }
}

/// What a filter keeps: exactly the elements of `s` that satisfy `p`;
/// it keeps no duplicates where `s` has none, and it does not grow.
pub proof fn lemma_filter_members<A>(s: Seq<A>, p: spec_fn(A) -> bool)
    ensures
        forall|v: A| #[trigger] s.filter(p).contains(v) <==> (s.contains(v) && p(v)),
        s.no_duplicates() ==> s.filter(p).no_duplicates(),
        s.filter(p).len() <= s.len(),
    decreases s.len(),
{
    reveal(Seq::filter);
    if s.len() > 0 {
        let d = s.drop_last();
        let l = s.last();
        lemma_filter_members(d, p);
        let t = d.filter(p);
        assert forall|v: A| s.contains(v) <==> (d.contains(v) || v == l) by {
            if s.contains(v) {
                let i = choose|i: int| 0 <= i < s.len() && s[i] == v;
                if i < s.len() - 1 {
                    assert(d[i] == v);
                }
            }
            if d.contains(v) {
                let i = choose|i: int| 0 <= i < d.len() && d[i] == v;
                assert(s[i] == v);
            }
            if v == l {
                assert(s[s.len() - 1] == v);
            }
        }
        if p(l) {
            assert forall|v: A| #[trigger] t.push(l).contains(v) <==> (t.contains(v) || v == l) by {
                if t.push(l).contains(v) {
                    let i = choose|i: int| 0 <= i < t.push(l).len() && t.push(l)[i] == v;
                    if i < t.len() {
                        assert(t[i] == v);
                    }
                }
                if t.contains(v) {
                    let i = choose|i: int| 0 <= i < t.len() && t[i] == v;
                    assert(t.push(l)[i] == v);
                }
                if v == l {
                    assert(t.push(l)[t.len() as int] == v);
                }
            }
            if s.no_duplicates() {
                assert(d.no_duplicates()) by {
                    assert forall|i: int, j: int| 0 <= i < d.len() && 0 <= j < d.len() && i != j
                        implies d[i] != d[j] by {
                        assert(d[i] == s[i] && d[j] == s[j]);
                    }
                }
                assert(!d.contains(l)) by {
                    if d.contains(l) {
                        let i = choose|i: int| 0 <= i < d.len() && d[i] == l;
                        assert(s[i] == s[s.len() - 1]);
                    }
                }
                let u = t.push(l);
                assert forall|i: int, j: int| 0 <= i < u.len() && 0 <= j < u.len() && i != j
                    implies u[i] != u[j] by {
                    if i < t.len() && j < t.len() {
                        assert(u[i] == t[i] && u[j] == t[j]);
                    } else if i < t.len() {
                        assert(u[i] == t[i]);
                        assert(t.contains(t[i]));
                    } else if j < t.len() {
                        assert(u[j] == t[j]);
                        assert(t.contains(t[j]));
                    }
                }
            }
        } else {
            if s.no_duplicates() {
                assert(d.no_duplicates()) by {
                    assert forall|i: int, j: int| 0 <= i < d.len() && 0 <= j < d.len() && i != j
                        implies d[i] != d[j] by {
                        assert(d[i] == s[i] && d[j] == s[j]);
                    }
                }
            }
        }
    }
}

/// A filter that drops some element of `s` makes it strictly shorter.
pub proof fn lemma_filter_drops<A>(s: Seq<A>, p: spec_fn(A) -> bool, i: int)
    requires
        0 <= i < s.len(),
        !p(s[i]),
    ensures
        s.filter(p).len() < s.len(),
    decreases s.len(),
{
    reveal(Seq::filter);
    let d = s.drop_last();
    lemma_filter_members(d, p);
    if i < s.len() - 1 {
        assert(d[i] == s[i]);
        lemma_filter_drops(d, p, i);
    }
}


/// Every entry of `s` is below every later one.
pub open spec fn increasing(s: Seq<i32>) -> bool {
    forall|i: int, j: int| 0 <= i < j < s.len() ==> s[i] < s[j]
}

/// `b` keeps some of the entries of `a`, in the order that `a` has them.
pub open spec fn thinned(b: Seq<i32>, a: Seq<i32>) -> bool {
    b == a.filter(|v: i32| b.contains(v))
}

/// A filter keeps an increasing sequence increasing.
pub proof fn lemma_filter_increasing(s: Seq<i32>, p: spec_fn(i32) -> bool)
    requires
        increasing(s),
    ensures
        increasing(s.filter(p)),
    decreases s.len(),
{
    reveal(Seq::filter);
    if s.len() > 0 {
        let d = s.drop_last();
        let l = s.last();
        assert(increasing(d));
        lemma_filter_increasing(d, p);
        let t = d.filter(p);
        if p(l) {
            lemma_filter_members(d, p);
            assert forall|i: int| 0 <= i < t.len() implies t[i] < l by {
                assert(t.contains(t[i]));
                let j = choose|j: int| 0 <= j < d.len() && d[j] == t[i];
                assert(s[j] == d[j]);
            }
            let u = t.push(l);
            assert forall|i: int, j: int| 0 <= i < j < u.len() implies u[i] < u[j] by {
                assert(u[i] == t[i]);
            }
        }
    }
}

/// An increasing sequence whose entries all occur in an increasing `a`
/// is `a` thinned out.
pub proof fn lemma_increasing_subset_thinned(b: Seq<i32>, a: Seq<i32>)
    requires
        increasing(a),
        increasing(b),
        forall|v: i32| #[trigger] b.contains(v) ==> a.contains(v),
    ensures
        thinned(b, a),
    decreases a.len(),
{
    reveal(Seq::filter);
    let pb = |v: i32| b.contains(v);
    if a.len() == 0 {
        if b.len() > 0 {
            assert(b.contains(b[0]));
        }
        assert(b =~= Seq::<i32>::empty());
        assert(a.filter(pb) =~= Seq::<i32>::empty());
    } else {
        let d = a.drop_last();
        let l = a.last();
        assert(increasing(d));
        assert forall|v: i32| a.contains(v) && v != l implies d.contains(v) && v < l by {
            let j = choose|j: int| 0 <= j < a.len() && a[j] == v;
            assert(j < a.len() - 1);
            assert(d[j] == v);
        }
        if b.contains(l) {
            let bl = b.last();
            let e = b.drop_last();
            assert(b.len() > 0);
            assert(b.contains(bl));
            assert(bl == l) by {
                let i = choose|i: int| 0 <= i < b.len() && b[i] == l;
                if bl != l {
                    assert(a.contains(bl));
                    assert(bl < l);
                    assert(i < b.len() - 1);
                }
            }
            assert(increasing(e));
            assert forall|v: i32| #[trigger] e.contains(v) implies d.contains(v) by {
                let i = choose|i: int| 0 <= i < e.len() && e[i] == v;
                assert(b[i] == v);
                assert(b.contains(v));
                assert(v < l);
            }
            lemma_increasing_subset_thinned(e, d);
            let pe = |v: i32| e.contains(v);
            assert forall|i: int| 0 <= i < d.len() implies pe(d[i]) == pb(d[i]) by {
                assert(d[i] < l) by {
                    assert(a[i] == d[i]);
                }
                if b.contains(d[i]) {
                    let j = choose|j: int| 0 <= j < b.len() && b[j] == d[i];
                    assert(j < b.len() - 1);
                    assert(e[j] == d[i]);
                }
                if e.contains(d[i]) {
                    let j = choose|j: int| 0 <= j < e.len() && e[j] == d[i];
                    assert(b[j] == d[i]);
                }
            }
            lemma_filter_ext(d, pe, pb);
            assert(a =~= d.push(l));
            d.lemma_filter_push(l, pb);
            assert(b =~= e.push(l));
            assert(a.filter(pb) == d.filter(pb).push(l));
        } else {
            assert forall|v: i32| #[trigger] b.contains(v) implies d.contains(v) by {
                assert(a.contains(v));
            }
            lemma_increasing_subset_thinned(b, d);
            assert(a =~= d.push(l));
            d.lemma_filter_push(l, pb);
            assert(a.filter(pb) == d.filter(pb));
        }
    }
}

} // verus!
