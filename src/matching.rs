use vstd::prelude::*;
use crate::index::EntryModel;
use crate::metric::{similar, Metric};

verus! {

/// For each fragment of `a[..k]` that `b` also holds, in order, the pair `(f, f)`.
pub open spec fn equal_matches(a: Seq<Seq<char>>, b: Seq<Seq<char>>, k: nat) -> Seq<(Seq<char>, Seq<char>)>
    decreases k,
{
    if k == 0 || k > a.len() {
        Seq::empty()
    } else {
        let r = equal_matches(a, b, (k - 1) as nat);
        if b.contains(a[k - 1]) {
            r.push((a[k - 1], a[k - 1]))
        } else {
            r
        }
    }
}

/// The pairs `(fa, fb)` for each `fb` of `b[..k]` similar to `fa`, in order.
pub open spec fn similar_row(
    fa: Seq<char>,
    b: Seq<Seq<char>>,
    k: nat,
    metric: Metric,
    s: nat,
) -> Seq<(Seq<char>, Seq<char>)>
    decreases k,
{
    if k == 0 || k > b.len() {
        Seq::empty()
    } else {
        let r = similar_row(fa, b, (k - 1) as nat, metric, s);
        if similar(fa, b[k - 1], metric, s) {
            r.push((fa, b[k - 1]))
        } else {
            r
        }
    }
}

/// Every similar pair `(fa, fb)` with `fa` in `a[..k]` and `fb` in `b`, row by row.
pub open spec fn similar_matches(
    a: Seq<Seq<char>>,
    b: Seq<Seq<char>>,
    k: nat,
    metric: Metric,
    s: nat,
) -> Seq<(Seq<char>, Seq<char>)>
    decreases k,
{
    if k == 0 || k > a.len() {
        Seq::empty()
    } else {
        similar_matches(a, b, (k - 1) as nat, metric, s) + similar_row(a[k - 1], b, b.len(), metric, s)
    }
}

/// The matching fragment pairs of two entries under `metric` with cutoff `s`.
pub open spec fn fragment_matches(a: EntryModel, b: EntryModel, metric: Metric, s: nat) -> Seq<
    (Seq<char>, Seq<char>),
> {
    if metric == Metric::Equal {
        equal_matches(a.fragments, b.fragments, a.fragments.len())
    } else {
        similar_matches(a.fragments, b.fragments, a.fragments.len(), metric, s)
    }
}

/// A pair is an exact match exactly when both members are one fragment held by both sides.
pub proof fn lemma_equal_matches_members(a: Seq<Seq<char>>, b: Seq<Seq<char>>, k: nat)
    requires
        k <= a.len(),
    ensures
        forall|p: (Seq<char>, Seq<char>)| #[trigger]
            equal_matches(a, b, k).contains(p) <==> (p.0 == p.1 && a.take(k as int).contains(p.0)
                && b.contains(p.0)),
    decreases k,
{
    if k > 0 {
        lemma_equal_matches_members(a, b, (k - 1) as nat);
        let t = a.take(k as int);
        let t1 = a.take(k - 1);
        assert forall|f: Seq<char>| t.contains(f) <==> (t1.contains(f) || f == a[k - 1]) by {
            if t.contains(f) {
                let i = choose|i: int| 0 <= i < t.len() && t[i] == f;
                if i < k - 1 {
                    assert(t1[i] == f);
                }
            }
            if f == a[k - 1] {
                assert(t[k - 1] == f);
            }
            if t1.contains(f) {
                let i = choose|i: int| 0 <= i < t1.len() && t1[i] == f;
                assert(t[i] == f);
            }
        }
        let r = equal_matches(a, b, (k - 1) as nat);
        lemma_push_contains(r, (a[k - 1], a[k - 1]));
    }
}

/// What a pushed sequence contains.
pub proof fn lemma_push_contains<A>(s: Seq<A>, x: A)
    ensures
        forall|y: A| #[trigger] s.push(x).contains(y) <==> (s.contains(y) || y == x),
{
    assert forall|y: A| #[trigger] s.push(x).contains(y) <==> (s.contains(y) || y == x) by {
        let e = s.push(x);
        if e.contains(y) {
            let i = choose|i: int| 0 <= i < e.len() && e[i] == y;
            if i < s.len() {
                assert(s[i] == y);
            }
        }
        if s.contains(y) {
            let i = choose|i: int| 0 <= i < s.len() && s[i] == y;
            assert(e[i] == y);
        }
        if y == x {
            assert(e[s.len() as int] == y);
        }
    }
}

/// Every pair of a similarity sweep is judged similar, its first member from
/// `a[..k]` and its second from `b`.
pub proof fn lemma_similar_matches_members(
    a: Seq<Seq<char>>,
    b: Seq<Seq<char>>,
    k: nat,
    metric: Metric,
    s: nat,
)
    requires
        k <= a.len(),
    ensures
        forall|p: (Seq<char>, Seq<char>)| #[trigger]
            similar_matches(a, b, k, metric, s).contains(p) ==> similar(p.0, p.1, metric, s)
                && a.contains(p.0) && b.contains(p.1),
    decreases k,
{
    if k > 0 {
        lemma_similar_matches_members(a, b, (k - 1) as nat, metric, s);
        lemma_similar_row_members(a[k - 1], b, b.len(), metric, s);
        let l = similar_matches(a, b, (k - 1) as nat, metric, s);
        let r = similar_row(a[k - 1], b, b.len(), metric, s);
        assert forall|p: (Seq<char>, Seq<char>)| #[trigger] (l + r).contains(p) implies similar(
            p.0,
            p.1,
            metric,
            s,
        ) && a.contains(p.0) && b.contains(p.1) by {
            let i = choose|i: int| 0 <= i < (l + r).len() && (l + r)[i] == p;
            if i < l.len() {
                assert(l[i] == p);
                assert(l.contains(p));
            } else {
                assert(r[i - l.len()] == p);
                assert(r.contains(p));
                assert(a[k - 1] == p.0);
            }
        }
    }
}

/// Every pair of one row of a similarity sweep.
pub proof fn lemma_similar_row_members(fa: Seq<char>, b: Seq<Seq<char>>, k: nat, metric: Metric, s: nat)
    requires
        k <= b.len(),
    ensures
        forall|p: (Seq<char>, Seq<char>)| #[trigger]
            similar_row(fa, b, k, metric, s).contains(p) ==> similar(p.0, p.1, metric, s) && p.0
                == fa && b.contains(p.1),
    decreases k,
{
    if k > 0 {
        lemma_similar_row_members(fa, b, (k - 1) as nat, metric, s);
        let l = similar_row(fa, b, (k - 1) as nat, metric, s);
        assert forall|p: (Seq<char>, Seq<char>)| #[trigger]
            similar_row(fa, b, k, metric, s).contains(p) implies similar(p.0, p.1, metric, s)
            && p.0 == fa && b.contains(p.1) by {
            if similar(fa, b[k - 1], metric, s) {
                let r = l.push((fa, b[k - 1]));
                let i = choose|i: int| 0 <= i < r.len() && r[i] == p;
                if i < l.len() {
                    assert(l[i] == p);
                    assert(l.contains(p));
                } else {
                    assert(b[k - 1] == p.1);
                }
            }
        }
    }
}

/// Every matching pair of two entries is judged similar, its first member a
/// fragment of the first entry and its second a fragment of the second.
pub proof fn lemma_fragment_matches_members(a: EntryModel, b: EntryModel, metric: Metric, s: nat)
    ensures
        forall|p: (Seq<char>, Seq<char>)| #[trigger]
            fragment_matches(a, b, metric, s).contains(p) ==> similar(p.0, p.1, metric, s)
                && a.fragments.contains(p.0) && b.fragments.contains(p.1),
{
    if metric == Metric::Equal {
        lemma_equal_matches_members(a.fragments, b.fragments, a.fragments.len());
        assert(a.fragments.take(a.fragments.len() as int) == a.fragments);
    } else {
        lemma_similar_matches_members(a.fragments, b.fragments, a.fragments.len(), metric, s);
    }
}

} // verus!
