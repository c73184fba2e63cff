use vstd::prelude::*;

verus! {

/// How two fragments are compared.
#[derive(PartialEq, Eq, Structural, Clone, Copy, Debug)]
pub enum Metric {
    /// Fragments match when they are the same string.
    Equal,
    /// Fragments match when their character edit distance is at most the cutoff.
    Levenshtein,
}

pub open spec fn min3(x: nat, y: nat, z: nat) -> nat {
    if x <= y && x <= z {
        x
    } else if y <= z {
        y
    } else {
        z
    }
}

/// Edit distance: the fewest single-character insertions, deletions and
/// substitutions that turn `a` into `b`.
pub open spec fn lev(a: Seq<char>, b: Seq<char>) -> nat
    decreases a.len() + b.len(),
{
    if a.len() == 0 {
        b.len()
    } else if b.len() == 0 {
        a.len()
    } else {
        let cost: nat = if a.last() == b.last() {
            0
        } else {
            1
        };
        min3(
            lev(a.drop_last(), b) + 1,
            lev(a, b.drop_last()) + 1,
            lev(a.drop_last(), b.drop_last()) + cost,
        )
    }
}

/// Whether fragment `a` is judged a copy of fragment `b` under `metric` with cutoff `s`.
pub open spec fn similar(a: Seq<char>, b: Seq<char>, metric: Metric, s: nat) -> bool {
    match metric {
        Metric::Equal => a == b,
        Metric::Levenshtein => lev(a, b) <= s,
    }
}

/// The edit distance never exceeds the longer length.
pub proof fn lemma_lev_le_max(a: Seq<char>, b: Seq<char>)
    ensures
        lev(a, b) <= if a.len() >= b.len() {
            a.len()
        } else {
            b.len()
        },
    decreases a.len() + b.len(),
{
    if a.len() > 0 && b.len() > 0 {
        lemma_lev_le_max(a.drop_last(), b.drop_last());
    }
}

/// The characters of a string.
fn chars_of(s: &str) -> (r: Vec<char>)
    ensures
        r@ == s@,
{
    let len = s.unicode_len();
    let mut r: Vec<char> = Vec::new();
    let mut i: usize = 0;
    while i < len
        invariant
            len == s@.len(),
            i <= len,
            r@ == s@.take(i as int),
        decreases len - i,
    {
        r.push(s.get_char(i));
        assert(s@.take(i + 1) == s@.take(i as int).push(s@[i as int]));
        i = i + 1;
    }
    assert(s@.take(len as int) == s@);
    r
}

fn succ(x: usize) -> (r: usize)
    ensures
        x < usize::MAX ==> r == x + 1,
        x == usize::MAX ==> r == x,
{
    if x < usize::MAX {
        x + 1
    } else {
        x
    }
}

/// The edit distance between two strings, by rows of the dynamic program.
pub fn levenshtein(a: &str, b: &str) -> (r: usize)
    ensures
        r == lev(a@, b@),
{
    let av = chars_of(a);
    let bv = chars_of(b);
    let n = av.len();
    let m = bv.len();
    let mut prev: Vec<usize> = Vec::new();
    assert(av@.take(0).len() == 0);
    assert(bv@.take(0).len() == 0);
    prev.push(0);
    let mut j: usize = 0;
    while j < m
        invariant
            m == bv@.len(),
            j <= m,
            prev@.len() == j + 1,
            forall|k: int| 0 <= k <= j ==> prev@[k] == lev(av@.take(0), bv@.take(k)),
        decreases m - j,
    {
        prev.push(j + 1);
        j = j + 1;
        assert(av@.take(0).len() == 0);
    }
    let width = prev.len();
    let mut i: usize = 0;
    while i < n
        invariant
            width == m + 1,
            n == av@.len(),
            m == bv@.len(),
            i <= n,
            prev@.len() == m + 1,
            forall|k: int| 0 <= k <= m ==> prev@[k] == lev(av@.take(i as int), bv@.take(k)),
        decreases n - i,
    {
        let ghost ai = av@.take(i as int);
        let ghost ai1 = av@.take(i + 1);
        assert(ai1.drop_last() == ai);
        assert(bv@.take(0).len() == 0);
        let mut cur: Vec<usize> = Vec::new();
        cur.push(i + 1);
        let mut j: usize = 1;
        while j <= m
            invariant
                width == m + 1,
                n == av@.len(),
                m == bv@.len(),
                i < n,
                1 <= j <= m + 1,
                prev@.len() == m + 1,
                ai == av@.take(i as int),
                ai1 == av@.take(i + 1),
                ai1.drop_last() == ai,
                ai1.last() == av@[i as int],
                forall|k: int| 0 <= k <= m ==> prev@[k] == lev(ai, bv@.take(k)),
                cur@.len() == j,
                forall|k: int| 0 <= k < j ==> cur@[k] == lev(ai1, bv@.take(k)),
            decreases m + 1 - j,
        {
            let ghost bj = bv@.take(j as int);
            assert(bj.drop_last() == bv@.take(j - 1));
            proof {
                lemma_lev_le_max(ai, bv@.take(j - 1));
                lemma_lev_le_max(ai, bj);
                lemma_lev_le_max(ai1, bv@.take(j - 1));
                lemma_lev_le_max(ai1, bj);
            }
            let del = succ(prev[j]);
            let ins = succ(cur[j - 1]);
            let sub = if av[i] == bv[j - 1] {
                prev[j - 1]
            } else {
                prev[j - 1] + 1
            };
            let best = if del <= ins && del <= sub {
                del
            } else if ins <= sub {
                ins
            } else {
                sub
            };
            cur.push(best);
            j = j + 1;
        }
        prev = cur;
        i = i + 1;
    }
    assert(av@.take(n as int) == av@);
    assert(bv@.take(m as int) == bv@);
    prev[m]
}

/// Whether fragment `a` is judged a copy of fragment `b` under `metric` with cutoff `s`.
pub fn is_plagiarised(a: &String, b: &String, metric: Metric, s: usize) -> (r: bool)
    ensures
        r == similar(a@, b@, metric, s as nat),
{
    match metric {
        Metric::Equal => a.eq(b),
        Metric::Levenshtein => levenshtein(a.as_str(), b.as_str()) <= s,
    }
}

} // verus!
