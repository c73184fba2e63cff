use vstd::prelude::*;
use crate::text::{ngrams, words_of};

verus! {

/// The distinct members of `g[..k]`, in order of first occurrence.
pub open spec fn first_seen(g: Seq<Seq<char>>, k: nat) -> Seq<Seq<char>>
    decreases k,
{
    if k == 0 || k > g.len() {
        Seq::empty()
    } else {
        let d = first_seen(g, (k - 1) as nat);
        if d.contains(g[k - 1]) {
            d
        } else {
            d.push(g[k - 1])
        }
    }
}

/// Every window `(i, i + n)` with `i < k` where `g[i] == f`, by increasing `i`.
pub open spec fn occurrences(g: Seq<Seq<char>>, f: Seq<char>, k: nat, n: nat) -> Seq<(usize, usize)>
    decreases k,
{
    if k == 0 || k > g.len() {
        Seq::empty()
    } else {
        let o = occurrences(g, f, (k - 1) as nat, n);
        if g[k - 1] == f {
            o.push(((k - 1) as usize, (k - 1 + n) as usize))
        } else {
            o
        }
    }
}

/// One owner's indexed text.
pub struct EntryModel {
    pub owner: Seq<char>,
    pub words: Seq<Seq<char>>,
    pub fragments: Seq<Seq<char>>,
    pub locations: Seq<Seq<(usize, usize)>>,
}

/// The distinct fragments of `n` words of `words`, in order of first occurrence.
pub open spec fn distinct_fragments(words: Seq<Seq<char>>, n: nat) -> Seq<Seq<char>> {
    first_seen(ngrams(words, n), ngrams(words, n).len())
}

/// For each of the distinct fragments, every window where it occurs.
pub open spec fn locations_of_fragments(words: Seq<Seq<char>>, n: nat) -> Seq<Seq<(usize, usize)>> {
    let g = ngrams(words, n);
    let fs = distinct_fragments(words, n);
    Seq::new(fs.len(), |j: int| occurrences(g, fs[j], g.len(), n))
}

/// The entry that indexing `words` with windows of `n` words gives.
pub open spec fn entry_from_words(owner: Seq<char>, words: Seq<Seq<char>>, n: nat) -> EntryModel {
    EntryModel {
        owner,
        words,
        fragments: distinct_fragments(words, n),
        locations: locations_of_fragments(words, n),
    }
}

/// The entry that indexing the text `text` with windows of `n` words gives.
pub open spec fn entry_of(owner: Seq<char>, text: Seq<char>, n: nat) -> EntryModel {
    entry_from_words(owner, words_of(text), n)
}

/// The distinct fragments hold each n-gram once and nothing else.
pub proof fn lemma_first_seen(g: Seq<Seq<char>>, k: nat)
    requires
        k <= g.len(),
    ensures
        first_seen(g, k).no_duplicates(),
        forall|f: Seq<char>| #[trigger] first_seen(g, k).contains(f) <==> g.take(k as int).contains(f),
    decreases k,
{
    if k > 0 {
        lemma_first_seen(g, (k - 1) as nat);
        let t = g.take(k as int);
        let t1 = g.take(k - 1);
        assert(t1 == t.drop_last());
        assert forall|f: Seq<char>| t.contains(f) <==> (t1.contains(f) || f == g[k - 1]) by {
            if t.contains(f) {
                let i = choose|i: int| 0 <= i < t.len() && t[i] == f;
                if i < k - 1 {
                    assert(t1[i] == f);
                }
            }
            if f == g[k - 1] {
                assert(t[k - 1] == f);
            }
            if t1.contains(f) {
                let i = choose|i: int| 0 <= i < t1.len() && t1[i] == f;
                assert(t[i] == f);
            }
        }
        let d = first_seen(g, (k - 1) as nat);
        let x = g[k - 1];
        if !d.contains(x) {
            let e = d.push(x);
            assert forall|f: Seq<char>| e.contains(f) <==> (d.contains(f) || f == x) by {
                if e.contains(f) {
                    let i = choose|i: int| 0 <= i < e.len() && e[i] == f;
                    if i < d.len() {
                        assert(d[i] == f);
                    }
                }
                if d.contains(f) {
                    let i = choose|i: int| 0 <= i < d.len() && d[i] == f;
                    assert(e[i] == f);
                }
                if f == x {
                    assert(e[d.len() as int] == f);
                }
            }
            assert forall|i: int, j: int| 0 <= i < e.len() && 0 <= j < e.len() && i != j implies e[i]
                != e[j] by {
                if i < d.len() && j < d.len() {
                } else if i < d.len() {
                    assert(d.contains(e[i]));
                } else {
                    assert(d.contains(e[j]));
                }
            }
        }
    }
}

} // verus!
