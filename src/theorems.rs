use vstd::prelude::*;
use crate::index::{entry_of, EntryModel};
use crate::matching::{fragment_matches, lemma_equal_matches_members, lemma_push_contains};
use crate::metric::Metric;
use crate::plagiarism_database::{
    entry_of_owner, insert_entry, model_wf, owners_unique, pair_result, results_against,
    trusted_results, untrusted_results, DatabaseModel, PlagiarismDatabase, ResultModel,
};

verus! {

/// Each report against `bs[..k]` is the report on `a` against one of them.
pub proof fn lemma_results_against_members(
    a: EntryModel,
    bs: Seq<EntryModel>,
    k: nat,
    trusted: bool,
    metric: Metric,
    s: nat,
)
    requires
        k <= bs.len(),
    ensures
        forall|r: ResultModel| #[trigger]
            results_against(a, bs, k, trusted, metric, s).contains(r) ==> exists|j: int|
                0 <= j < k && pair_result(a, bs[j], trusted, metric, s) == Some(r),
    decreases k,
{
    if k > 0 {
        lemma_results_against_members(a, bs, (k - 1) as nat, trusted, metric, s);
        let prev = results_against(a, bs, (k - 1) as nat, trusted, metric, s);
        if let Some(x) = pair_result(a, bs[k - 1], trusted, metric, s) {
            lemma_push_contains(prev, x);
        }
    }
}

/// Each report on the untrusted partition is the report on a pair `i < j` of it.
pub proof fn lemma_untrusted_results_members(us: Seq<EntryModel>, k: nat, metric: Metric, s: nat)
    requires
        k <= us.len(),
    ensures
        forall|r: ResultModel| #[trigger]
            untrusted_results(us, k, metric, s).contains(r) ==> exists|i: int, j: int|
                0 <= i < j < us.len() && i < k && pair_result(us[i], us[j], false, metric, s) == Some(
                    r,
                ),
    decreases k,
{
    if k > 0 {
        lemma_untrusted_results_members(us, (k - 1) as nat, metric, s);
        let tail = us.subrange(k as int, us.len() as int);
        let l = untrusted_results(us, (k - 1) as nat, metric, s);
        let t = results_against(us[k - 1], tail, (us.len() - k) as nat, false, metric, s);
        lemma_results_against_members(us[k - 1], tail, (us.len() - k) as nat, false, metric, s);
        assert forall|r: ResultModel| #[trigger] (l + t).contains(r) implies exists|i: int, j: int|
            0 <= i < j < us.len() && i < k && pair_result(us[i], us[j], false, metric, s) == Some(
                r,
            ) by {
            let x = choose|x: int| 0 <= x < (l + t).len() && (l + t)[x] == r;
            if x < l.len() {
                assert(l[x] == r);
                assert(l.contains(r));
            } else {
                assert(t[x - l.len()] == r);
                assert(t.contains(r));
                let j = choose|j: int|
                    0 <= j < us.len() - k && pair_result(us[k - 1], tail[j], false, metric, s)
                        == Some(r);
                assert(tail[j] == us[k + j]);
                assert(0 <= k - 1 < k + j < us.len());
            }
        }
    }
}

/// Each report of the trusted check is the report on one trusted entry against
/// one untrusted entry.
pub proof fn lemma_trusted_results_members(
    ts: Seq<EntryModel>,
    us: Seq<EntryModel>,
    k: nat,
    metric: Metric,
    s: nat,
)
    requires
        k <= ts.len(),
    ensures
        forall|r: ResultModel| #[trigger]
            trusted_results(ts, us, k, metric, s).contains(r) ==> exists|i: int, j: int|
                0 <= i < k && 0 <= j < us.len() && pair_result(ts[i], us[j], true, metric, s)
                    == Some(r),
    decreases k,
{
    if k > 0 {
        lemma_trusted_results_members(ts, us, (k - 1) as nat, metric, s);
        let l = trusted_results(ts, us, (k - 1) as nat, metric, s);
        let t = results_against(ts[k - 1], us, us.len(), true, metric, s);
        lemma_results_against_members(ts[k - 1], us, us.len(), true, metric, s);
        assert forall|r: ResultModel| #[trigger] (l + t).contains(r) implies exists|i: int, j: int|
            0 <= i < k && 0 <= j < us.len() && pair_result(ts[i], us[j], true, metric, s) == Some(
                r,
            ) by {
            let x = choose|x: int| 0 <= x < (l + t).len() && (l + t)[x] == r;
            if x < l.len() {
                assert(l[x] == r);
                assert(l.contains(r));
            } else {
                assert(t[x - l.len()] == r);
                assert(t.contains(r));
            }
        }
    }
}

/// Two owners with the same text, compared by equality, give one report whose
/// pairs are exactly `(f, f)` for each fragment of that text, marked as equal
/// fragments; a text too short for one fragment gives none.
pub proof fn lemma_identical_texts_match_fully(
    owner1: Seq<char>,
    owner2: Seq<char>,
    text: Seq<char>,
    n: nat,
    s: nat,
)
    requires
        owner1 != owner2,
        n >= 1,
    ensures
        ({
            let a = entry_of(owner1, text, n);
            let b = entry_of(owner2, text, n);
            &&& a.fragments.len() == 0 ==> pair_result(a, b, false, Metric::Equal, s) is None
            &&& a.fragments.len() > 0 ==> (pair_result(a, b, false, Metric::Equal, s) matches Some(r)
                && r.owner1 == owner1 && r.owner2 == owner2 && r.equal_fragments && forall|
                p: (Seq<char>, Seq<char>),
            | #[trigger] r.fragments.contains(p) <==> (p.0 == p.1 && a.fragments.contains(p.0)))
        }),
{
    let a = entry_of(owner1, text, n);
    let b = entry_of(owner2, text, n);
    assert(a.fragments == b.fragments);
    lemma_equal_matches_members(a.fragments, b.fragments, a.fragments.len());
    assert(a.fragments.take(a.fragments.len() as int) == a.fragments);
    let ms = fragment_matches(a, b, Metric::Equal, s);
    if a.fragments.len() > 0 {
        assert(a.fragments.contains(a.fragments[0]));
        assert(ms.contains((a.fragments[0], a.fragments[0])));
    } else if ms.len() > 0 {
        assert(ms.contains(ms[0]));
    }
}

/// Under equality, comparing `a` against `b` and `b` against `a` gives the same
/// pairs, in whatever order.
pub proof fn lemma_equal_matches_symmetric(a: EntryModel, b: EntryModel, s: nat)
    ensures
        forall|p: (Seq<char>, Seq<char>)| #[trigger]
            fragment_matches(a, b, Metric::Equal, s).contains(p) <==> fragment_matches(
                b,
                a,
                Metric::Equal,
                s,
            ).contains(p),
{
    lemma_equal_matches_members(a.fragments, b.fragments, a.fragments.len());
    lemma_equal_matches_members(b.fragments, a.fragments, b.fragments.len());
    assert(a.fragments.take(a.fragments.len() as int) == a.fragments);
    assert(b.fragments.take(b.fragments.len() as int) == b.fragments);
}

/// The check of the untrusted partition never reports an owner against itself.
pub proof fn lemma_no_self_comparison(db: DatabaseModel)
    requires
        model_wf(db),
    ensures
        forall|r: ResultModel| #[trigger]
            untrusted_results(db.untrusted, db.untrusted.len(), db.metric, db.s).contains(r)
                ==> r.owner1 != r.owner2,
{
    let us = db.untrusted;
    lemma_untrusted_results_members(us, us.len(), db.metric, db.s);
    assert forall|r: ResultModel| #[trigger]
        untrusted_results(us, us.len(), db.metric, db.s).contains(r) implies r.owner1
        != r.owner2 by {
        let (i, j) = choose|i: int, j: int|
            0 <= i < j < us.len() && i < us.len() && pair_result(us[i], us[j], false, db.metric, db.s)
                == Some(r);
        assert(us[i].owner != us[j].owner);
    }
}

/// Every report carries at least one matching pair, and no report is made on
/// a pair of untrusted entries that have no matching pair.
pub proof fn lemma_untrusted_no_evidence_no_report(db: DatabaseModel, i: int, j: int)
    requires
        model_wf(db),
        0 <= i < db.untrusted.len(),
        0 <= j < db.untrusted.len(),
        fragment_matches(db.untrusted[i], db.untrusted[j], db.metric, db.s).len() == 0,
    ensures
        forall|r: ResultModel| #[trigger]
            untrusted_results(db.untrusted, db.untrusted.len(), db.metric, db.s).contains(r)
                ==> r.fragments.len() > 0 && !(r.owner1 == db.untrusted[i].owner && r.owner2
                == db.untrusted[j].owner),
{
    let us = db.untrusted;
    lemma_untrusted_results_members(us, us.len(), db.metric, db.s);
    assert forall|r: ResultModel| #[trigger]
        untrusted_results(us, us.len(), db.metric, db.s).contains(r) implies r.fragments.len() > 0
        && !(r.owner1 == us[i].owner && r.owner2 == us[j].owner) by {
        let (x, y) = choose|x: int, y: int|
            0 <= x < y < us.len() && x < us.len() && pair_result(us[x], us[y], false, db.metric, db.s)
                == Some(r);
        if r.owner1 == us[i].owner && r.owner2 == us[j].owner {
            assert(us[x].owner == us[i].owner);
            assert(us[y].owner == us[j].owner);
        }
    }
}

/// Every report carries at least one matching pair, and no report is made on
/// a trusted entry and an untrusted entry that have no matching pair.
pub proof fn lemma_trusted_no_evidence_no_report(db: DatabaseModel, i: int, j: int)
    requires
        model_wf(db),
        0 <= i < db.trusted.len(),
        0 <= j < db.untrusted.len(),
        fragment_matches(db.trusted[i], db.untrusted[j], db.metric, db.s).len() == 0,
    ensures
        forall|r: ResultModel| #[trigger]
            trusted_results(db.trusted, db.untrusted, db.trusted.len(), db.metric, db.s).contains(r)
                ==> r.fragments.len() > 0 && !(r.owner1 == db.trusted[i].owner && r.owner2
                == db.untrusted[j].owner),
{
    let ts = db.trusted;
    let us = db.untrusted;
    lemma_trusted_results_members(ts, us, ts.len(), db.metric, db.s);
    assert forall|r: ResultModel| #[trigger]
        trusted_results(ts, us, ts.len(), db.metric, db.s).contains(r) implies r.fragments.len() > 0
        && !(r.owner1 == ts[i].owner && r.owner2 == us[j].owner) by {
        let (x, y) = choose|x: int, y: int|
            0 <= x < ts.len() && 0 <= y < us.len() && pair_result(ts[x], us[y], true, db.metric, db.s)
                == Some(r);
        if r.owner1 == ts[i].owner && r.owner2 == us[j].owner {
            assert(ts[x].owner == ts[i].owner);
            assert(us[y].owner == us[j].owner);
        }
    }
}

/// Storing an entry leaves exactly that entry for its owner, and every other
/// entry as it was.
pub proof fn lemma_insert_replaces(es: Seq<EntryModel>, e: EntryModel)
    requires
        owners_unique(es),
    ensures
        owners_unique(insert_entry(es, e)),
        exists|i: int| 0 <= i < insert_entry(es, e).len() && insert_entry(es, e)[i].owner == e.owner,
        entry_of_owner(insert_entry(es, e), e.owner) == e,
        forall|i: int|
            0 <= i < insert_entry(es, e).len() && (#[trigger] insert_entry(es, e)[i]).owner != e.owner
                ==> es.contains(insert_entry(es, e)[i]),
{
    let r = insert_entry(es, e);
    if exists|i: int| 0 <= i < es.len() && es[i].owner == e.owner {
        let c = choose|i: int| 0 <= i < es.len() && es[i].owner == e.owner;
        assert(r[c] == e);
        assert forall|i: int| 0 <= i < r.len() && r[i].owner != e.owner implies es.contains(r[i]) by {
            assert(r[i] == es[i]);
        }
    } else {
        assert(r[es.len() as int] == e);
        assert forall|i: int| 0 <= i < r.len() && r[i].owner != e.owner implies es.contains(r[i]) by {
            assert(r[i] == es[i]);
        }
    }
    let c = choose|i: int| 0 <= i < r.len() && r[i].owner == e.owner;
    assert(r[c] == e);
}

/// Adding an untrusted text for an owner replaces whatever that owner had
/// before: afterwards the owner's untrusted entry is the index of the new text
/// alone, the other untrusted entries and the trusted partition are unchanged.
pub proof fn lemma_untrusted_overwrite(m: DatabaseModel, owner: Seq<char>, text: Seq<char>)
    requires
        model_wf(m),
    ensures
        ({
            let m2 = PlagiarismDatabase::with_untrusted(m, owner, text);
            &&& entry_of_owner(m2.untrusted, owner) == entry_of(owner, text, m.n)
            &&& exists|i: int| 0 <= i < m2.untrusted.len() && m2.untrusted[i].owner == owner
            &&& forall|i: int|
                0 <= i < m2.untrusted.len() && (#[trigger] m2.untrusted[i]).owner != owner
                    ==> m.untrusted.contains(m2.untrusted[i])
            &&& m2.trusted == m.trusted
        }),
{
    let e = entry_of(owner, text, m.n);
    assert(e.owner == owner);
    lemma_insert_replaces(m.untrusted, e);
}

/// Adding a trusted text for an owner replaces whatever that owner had
/// before: afterwards the owner's trusted entry is the index of the new text
/// alone, the other trusted entries and the untrusted partition are unchanged.
pub proof fn lemma_trusted_overwrite(m: DatabaseModel, owner: Seq<char>, text: Seq<char>)
    requires
        model_wf(m),
    ensures
        ({
            let m2 = PlagiarismDatabase::with_trusted(m, owner, text);
            &&& entry_of_owner(m2.trusted, owner) == entry_of(owner, text, m.n)
            &&& exists|i: int| 0 <= i < m2.trusted.len() && m2.trusted[i].owner == owner
            &&& forall|i: int|
                0 <= i < m2.trusted.len() && (#[trigger] m2.trusted[i]).owner != owner
                    ==> m.trusted.contains(m2.trusted[i])
            &&& m2.untrusted == m.untrusted
        }),
{
    let e = entry_of(owner, text, m.n);
    assert(e.owner == owner);
    lemma_insert_replaces(m.trusted, e);
}

} // verus!
