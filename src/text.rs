use vstd::prelude::*;

verus! {

/// Whitespace characters separate words.
pub open spec fn is_space(c: char) -> bool {
    c == ' ' || c == '\t' || c == '\n' || c == '\r'
}

fn is_space_char(c: char) -> (r: bool)
    ensures
        r == is_space(c),
{
    c == ' ' || c == '\t' || c == '\n' || c == '\r'
}

/// The character views of a sequence of strings.
pub open spec fn views(v: Seq<String>) -> Seq<Seq<char>> {
    v.map_values(|s: String| s@)
}

/// Reading `t[..i]` left to right: the words completed so far, and the word
/// still being read.
pub open spec fn scan(t: Seq<char>, i: nat) -> (Seq<Seq<char>>, Seq<char>)
    decreases i,
{
    if i == 0 || i > t.len() {
        (Seq::empty(), Seq::empty())
    } else {
        let (ws, cur) = scan(t, (i - 1) as nat);
        let c = t[i - 1];
        if is_space(c) {
            if cur.len() > 0 {
                (ws.push(cur), Seq::empty())
            } else {
                (ws, Seq::empty())
            }
        } else {
            (ws, cur.push(c))
        }
    }
}

/// The words of a text: its maximal runs of non-whitespace characters, in order.
pub open spec fn words_of(t: Seq<char>) -> Seq<Seq<char>> {
    let (ws, cur) = scan(t, t.len());
    if cur.len() > 0 {
        ws.push(cur)
    } else {
        ws
    }
}

/// Words joined by single spaces.
pub open spec fn join(ws: Seq<Seq<char>>) -> Seq<char>
    decreases ws.len(),
{
    if ws.len() == 0 {
        Seq::empty()
    } else if ws.len() == 1 {
        ws[0]
    } else {
        join(ws.drop_last()) + seq![' '] + ws.last()
    }
}

/// The fragment of `n` words that starts at word `i`.
pub open spec fn ngram(ws: Seq<Seq<char>>, i: int, n: nat) -> Seq<char> {
    join(ws.subrange(i, i + n))
}

/// How many windows of `n` words a sequence of words has.
pub open spec fn ngram_count(len: nat, n: nat) -> nat {
    if len >= n {
        (len - n + 1) as nat
    } else {
        0
    }
}

/// The fragments of a word sequence, element `i` being the window that
/// starts at word `i`.
pub open spec fn ngrams(ws: Seq<Seq<char>>, n: nat) -> Seq<Seq<char>> {
    Seq::new(ngram_count(ws.len(), n), |i: int| ngram(ws, i, n))
}

/// Splits a text into its words.
pub fn clean_text(text: &str) -> (r: Vec<String>)
    ensures
        views(r@) == words_of(text@),
{
    let len = text.unicode_len();
    let mut words: Vec<String> = Vec::new();
    let mut start: usize = 0;
    let mut i: usize = 0;
    while i < len
        invariant
            len == text@.len(),
            start <= i <= len,
            scan(text@, i as nat) == (views(words@), text@.subrange(start as int, i as int)),
        decreases len - i,
    {
        let c = text.get_char(i);
        let ghost old_words = words@;
        if is_space_char(c) {
            if start < i {
                let w = text.substring_char(start, i);
                words.push(String::from_str(w));
                assert(views(words@) == views(old_words).push(text@.subrange(start as int, i as int)));
            }
            start = i + 1;
            assert(text@.subrange(start as int, i + 1) == Seq::<char>::empty());
        } else {
            assert(text@.subrange(start as int, i + 1) == text@.subrange(start as int, i as int).push(c));
        }
        i = i + 1;
    }
    if start < len {
        let ghost old_words = words@;
        let w = text.substring_char(start, len);
        words.push(String::from_str(w));
        assert(views(words@) == views(old_words).push(text@.subrange(start as int, len as int)));
    }
    words
}

/// The fragment of `n` words of `words` that starts at word `i`.
pub fn fragment_at(words: &Vec<String>, i: usize, n: usize) -> (r: String)
    requires
        1 <= n,
        i + n <= words@.len(),
    ensures
        r@ == ngram(views(words@), i as int, n as nat),
{
    let ghost ws = views(words@);
    let len = words.len();
    let stop: usize = i + n;
    let mut s = words[i].clone();
    let mut k: usize = i + 1;
    assert(ws.subrange(i as int, i + 1) == seq![ws[i as int]]);
    while k < stop
        invariant
            ws == views(words@),
            len == words@.len(),
            stop == i + n,
            i < k <= stop <= len,
            s@ == join(ws.subrange(i as int, k as int)),
        decreases i + n - k,
    {
        proof {
            reveal_strlit(" ");
            assert(ws.subrange(i as int, k + 1).drop_last() == ws.subrange(i as int, k as int));
        }
        s.append(" ");
        s.append(words[k].as_str());
        k = k + 1;
    }
    s
}

/// All fragments of `n` words of `words`, in order of their first word.
pub fn extract_clean_word_ngrams(words: &Vec<String>, n: usize) -> (r: Vec<String>)
    requires
        1 <= n,
    ensures
        views(r@) == ngrams(views(words@), n as nat),
{
    let mut r: Vec<String> = Vec::new();
    if words.len() < n {
        assert(views(r@) == ngrams(views(words@), n as nat));
        return r;
    }
    let count = words.len() - n + 1;
    let mut i: usize = 0;
    while i < count
        invariant
            count == ngram_count(words@.len(), n as nat),
            1 <= n,
            i <= count,
            views(r@) == ngrams(views(words@), n as nat).take(i as int),
        decreases count - i,
    {
        let f = fragment_at(words, i, n);
        let ghost old_r = r@;
        r.push(f);
        assert(views(r@) == views(old_r).push(f@));
        assert(ngrams(views(words@), n as nat).take(i + 1) == ngrams(views(words@), n as nat).take(
            i as int,
        ).push(f@));
        i = i + 1;
    }
    assert(ngrams(views(words@), n as nat).take(count as int) == ngrams(views(words@), n as nat));
    r
}

} // verus!
