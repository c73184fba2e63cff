use vstd::prelude::*;
use crate::index::{
    distinct_fragments, entry_from_words, entry_of, first_seen, lemma_first_seen,
    locations_of_fragments, occurrences,
    EntryModel,
};
use crate::matching::{
    equal_matches, fragment_matches, lemma_fragment_matches_members, similar_matches, similar_row,
};
use crate::metric::{is_plagiarised, Metric};
use crate::text::{clean_text, extract_clean_word_ngrams, ngrams, views};

verus! {

pub type TextOwnerID = String;

/// (start index (inclusive), end index (exclusive))
pub type FragmentLocation = (usize, usize);

/// Why a database could not be made.
#[derive(PartialEq, Eq, Structural, Clone, Copy, Debug)]
pub enum ConfigError {
    /// Fragments must hold at least one word.
    ZeroFragmentLength,
}

/// Report for plagiarism between two owners
#[derive(Debug)]
pub struct PlagiarismResult {
    pub owner_id1: TextOwnerID,
    pub owner_id2: TextOwnerID,
    /// Each element is one matching tuple of text, one from each source
    pub matching_fragments: Vec<(String, String)>,
    /// Each element is the locations of one of the matching texts,
    ///     corresponding to each element of matching_fragments
    pub matching_fragments_locations: Vec<(Vec<FragmentLocation>, Vec<FragmentLocation>)>,
    /// Is the first owner a trusted source?
    pub trusted_owner1: bool,
    /// Are the two members of each matching tuple the same string?
    pub equal_fragments: bool,
}

/// A plagiarism report as values.
pub struct ResultModel {
    pub owner1: Seq<char>,
    pub owner2: Seq<char>,
    pub fragments: Seq<(Seq<char>, Seq<char>)>,
    pub locations: Seq<(Seq<FragmentLocation>, Seq<FragmentLocation>)>,
    pub trusted_owner1: bool,
    pub equal_fragments: bool,
}

pub open spec fn pair_views(v: Seq<(String, String)>) -> Seq<(Seq<char>, Seq<char>)> {
    v.map_values(|p: (String, String)| (p.0@, p.1@))
}

pub open spec fn location_views(v: Seq<(Vec<FragmentLocation>, Vec<FragmentLocation>)>) -> Seq<
    (Seq<FragmentLocation>, Seq<FragmentLocation>),
> {
    v.map_values(|p: (Vec<FragmentLocation>, Vec<FragmentLocation>)| (p.0@, p.1@))
}

impl View for PlagiarismResult {
    type V = ResultModel;

    open spec fn view(&self) -> ResultModel {
        ResultModel {
            owner1: self.owner_id1@,
            owner2: self.owner_id2@,
            fragments: pair_views(self.matching_fragments@),
            locations: location_views(self.matching_fragments_locations@),
            trusted_owner1: self.trusted_owner1,
            equal_fragments: self.equal_fragments,
        }
    }
}

pub open spec fn result_views(v: Seq<PlagiarismResult>) -> Seq<ResultModel> {
    v.map_values(|r: PlagiarismResult| r@)
}

/// A single user's "submission" or text string, broken into fragments
#[derive(Debug)]
struct TextEntry {
    owner: TextOwnerID,
    /// Cleaned text (word-by-word) for usage in printing
    clean_text_words: Vec<String>,
    /// Distinct string fragments in the text, in order of first occurrence
    fragments: Vec<String>,
    /// Where in the text each fragment of `fragments` is located
    fragment_locations: Vec<Vec<FragmentLocation>>,
}

impl View for TextEntry {
    type V = EntryModel;

    closed spec fn view(&self) -> EntryModel {
        EntryModel {
            owner: self.owner@,
            words: views(self.clean_text_words@),
            fragments: views(self.fragments@),
            locations: self.fragment_locations@.map_values(|l: Vec<FragmentLocation>| l@),
        }
    }
}

/// The database as values.
pub struct DatabaseModel {
    pub n: nat,
    pub s: nat,
    pub metric: Metric,
    pub trusted: Seq<EntryModel>,
    pub untrusted: Seq<EntryModel>,
}

/// No two entries of a partition have the same owner.
pub open spec fn owners_unique(es: Seq<EntryModel>) -> bool {
    forall|i: int, j: int|
        0 <= i < es.len() && 0 <= j < es.len() && #[trigger] es[i].owner == #[trigger] es[j].owner
            ==> i == j
}

/// Each entry is the index of its own words.
pub open spec fn entries_indexed(es: Seq<EntryModel>, n: nat) -> bool {
    forall|i: int| 0 <= i < es.len() ==> #[trigger] es[i] == entry_from_words(es[i].owner, es[i].words, n)
}

pub open spec fn partition_wf(es: Seq<EntryModel>, n: nat) -> bool {
    owners_unique(es) && entries_indexed(es, n)
}

pub open spec fn model_wf(m: DatabaseModel) -> bool {
    m.n >= 1 && partition_wf(m.trusted, m.n) && partition_wf(m.untrusted, m.n)
}

/// The partition `es` after storing `e`: an entry of the same owner is
/// replaced in place, else `e` is appended.
pub open spec fn insert_entry(es: Seq<EntryModel>, e: EntryModel) -> Seq<EntryModel> {
    if exists|i: int| 0 <= i < es.len() && es[i].owner == e.owner {
        es.update(choose|i: int| 0 <= i < es.len() && es[i].owner == e.owner, e)
    } else {
        es.push(e)
    }
}

/// The entry of owner `o` in the partition `es`.
pub open spec fn entry_of_owner(es: Seq<EntryModel>, o: Seq<char>) -> EntryModel {
    es[choose|i: int| 0 <= i < es.len() && es[i].owner == o]
}

/// The locations of fragment `f` in entry `e`.
pub open spec fn location_of(e: EntryModel, f: Seq<char>) -> Seq<FragmentLocation> {
    e.locations[choose|j: int| 0 <= j < e.fragments.len() && e.fragments[j] == f]
}

/// The report on entry `a` against entry `b`, if they have any matching pair.
pub open spec fn pair_result(a: EntryModel, b: EntryModel, trusted: bool, metric: Metric, s: nat) -> Option<
    ResultModel,
> {
    let ms = fragment_matches(a, b, metric, s);
    if ms.len() == 0 {
        None
    } else {
        Some(
            ResultModel {
                owner1: a.owner,
                owner2: b.owner,
                fragments: ms,
                locations: ms.map_values(
                    |p: (Seq<char>, Seq<char>)| (location_of(a, p.0), location_of(b, p.1)),
                ),
                trusted_owner1: trusted,
                equal_fragments: metric == Metric::Equal,
            },
        )
    }
}

/// The reports on `a` against each of `bs[..k]`, in order, where there is one.
pub open spec fn results_against(
    a: EntryModel,
    bs: Seq<EntryModel>,
    k: nat,
    trusted: bool,
    metric: Metric,
    s: nat,
) -> Seq<ResultModel>
    decreases k,
{
    if k == 0 || k > bs.len() {
        Seq::empty()
    } else {
        let r = results_against(a, bs, (k - 1) as nat, trusted, metric, s);
        match pair_result(a, bs[k - 1], trusted, metric, s) {
            Some(x) => r.push(x),
            None => r,
        }
    }
}

/// The reports on every pair `(us[i], us[j])` with `i < j` and `i < k`, by `i` then `j`.
pub open spec fn untrusted_results(us: Seq<EntryModel>, k: nat, metric: Metric, s: nat) -> Seq<
    ResultModel,
>
    decreases k,
{
    if k == 0 || k > us.len() {
        Seq::empty()
    } else {
        untrusted_results(us, (k - 1) as nat, metric, s) + results_against(
            us[k - 1],
            us.subrange(k as int, us.len() as int),
            (us.len() - k) as nat,
            false,
            metric,
            s,
        )
    }
}

/// The reports on every pair `(ts[i], us[j])` with `i < k`, by `i` then `j`.
pub open spec fn trusted_results(
    ts: Seq<EntryModel>,
    us: Seq<EntryModel>,
    k: nat,
    metric: Metric,
    s: nat,
) -> Seq<ResultModel>
    decreases k,
{
    if k == 0 || k > ts.len() {
        Seq::empty()
    } else {
        trusted_results(ts, us, (k - 1) as nat, metric, s) + results_against(
            ts[k - 1],
            us,
            us.len(),
            true,
            metric,
            s,
        )
    }
}

/// Owner and words of each entry of `ts[..k]` whose owner has no entry in `us`.
pub open spec fn trusted_only(ts: Seq<EntryModel>, us: Seq<EntryModel>, k: nat) -> Seq<
    (Seq<char>, Seq<Seq<char>>),
>
    decreases k,
{
    if k == 0 || k > ts.len() {
        Seq::empty()
    } else {
        let r = trusted_only(ts, us, (k - 1) as nat);
        if exists|i: int| 0 <= i < us.len() && us[i].owner == ts[k - 1].owner {
            r
        } else {
            r.push((ts[k - 1].owner, ts[k - 1].words))
        }
    }
}

/// Owner and words of every entry; where an owner has an entry in both
/// partitions, the untrusted one is kept.
pub open spec fn all_clean_text(m: DatabaseModel) -> Seq<(Seq<char>, Seq<Seq<char>>)> {
    trusted_only(m.trusted, m.untrusted, m.trusted.len()) + m.untrusted.map_values(
        |e: EntryModel| (e.owner, e.words),
    )
}

pub open spec fn clean_text_views(v: Seq<(String, Vec<String>)>) -> Seq<(Seq<char>, Seq<Seq<char>>)> {
    v.map_values(|p: (String, Vec<String>)| (p.0@, views(p.1@)))
}

/// Stores the corpus of trusted and untrusted strings
#[derive(Debug)]
pub struct PlagiarismDatabase {
    /// Number of words in a fragment
    n: usize,
    /// Metric cutoff value
    s: usize,
    /// Metric to use
    metric: Metric,
    /// The processed text entries of trusted owners, one per owner
    trusted_texts: Vec<TextEntry>,
    /// The processed text entries of untrusted owners, one per owner
    untrusted_texts: Vec<TextEntry>,
}

spec fn entry_views(v: Seq<TextEntry>) -> Seq<EntryModel> {
    v.map_values(|e: TextEntry| e@)
}

impl View for PlagiarismDatabase {
    type V = DatabaseModel;

    closed spec fn view(&self) -> DatabaseModel {
        DatabaseModel {
            n: self.n as nat,
            s: self.s as nat,
            metric: self.metric,
            trusted: entry_views(self.trusted_texts@),
            untrusted: entry_views(self.untrusted_texts@),
        }
    }
}

/// Position of the entry of `owner` in `entries`, or `entries.len()` where there is none.
fn find_owner(entries: &Vec<TextEntry>, owner: &String) -> (r: usize)
    ensures
        r <= entries@.len(),
        r < entries@.len() ==> entries@[r as int]@.owner == owner@,
        forall|k: int| 0 <= k < r ==> (#[trigger] entries@[k])@.owner != owner@,
{
    let mut i: usize = 0;
    while i < entries.len()
        invariant
            i <= entries@.len(),
            forall|k: int| 0 <= k < i ==> (#[trigger] entries@[k])@.owner != owner@,
        decreases entries@.len() - i,
    {
        if entries[i].owner.eq(owner) {
            proof {
                assert(entries@[i as int]@.owner == entries@[i as int].owner@);
            }
            return i;
        }
        proof {
            assert(entries@[i as int]@.owner == entries@[i as int].owner@);
        }
        i = i + 1;
    }
    i
}

/// Position of `f` in `v`, or `v.len()` where it is absent.
fn find_string(v: &Vec<String>, f: &String) -> (r: usize)
    ensures
        r <= v@.len(),
        r < v@.len() ==> v@[r as int]@ == f@,
        r == v@.len() ==> !views(v@).contains(f@),
{
    let mut i: usize = 0;
    while i < v.len()
        invariant
            i <= v@.len(),
            forall|k: int| 0 <= k < i ==> (#[trigger] v@[k])@ != f@,
        decreases v@.len() - i,
    {
        if v[i].eq(f) {
            return i;
        }
        i = i + 1;
    }
    proof {
        if views(v@).contains(f@) {
            let k = choose|k: int| 0 <= k < views(v@).len() && views(v@)[k] == f@;
            assert(v@[k]@ == f@);
        }
    }
    i
}

/// Stores `entry` in `entries`, replacing the entry of the same owner.
fn insert_into(entries: &mut Vec<TextEntry>, entry: TextEntry)
    requires
        owners_unique(entry_views(old(entries)@)),
    ensures
        entry_views(final(entries)@) == insert_entry(entry_views(old(entries)@), entry@),
        owners_unique(entry_views(final(entries)@)),
{
    let ghost es = entry_views(entries@);
    let ghost e = entry@;
    let pos = find_owner(entries, &entry.owner);
    proof {
        assert(e.owner == entry.owner@);
    }
    if pos < entries.len() {
        proof {
            assert(es[pos as int].owner == e.owner);
            let c = choose|i: int| 0 <= i < es.len() && es[i].owner == e.owner;
            assert(c == pos);
        }
        entries.set(pos, entry);
        assert(entry_views(entries@) == es.update(pos as int, e));
    } else {
        proof {
            assert forall|i: int| 0 <= i < es.len() implies es[i].owner != e.owner by {
                assert(es[i] == entries@[i]@);
            }
        }
        entries.push(entry);
        assert(entry_views(entries@) == es.push(e));
    }
}

/// A copy of a list of locations.
fn copy_locations(v: &Vec<FragmentLocation>) -> (r: Vec<FragmentLocation>)
    ensures
        r@ == v@,
{
    let mut r: Vec<FragmentLocation> = Vec::new();
    let mut i: usize = 0;
    while i < v.len()
        invariant
            i <= v@.len(),
            r@ == v@.take(i as int),
        decreases v@.len() - i,
    {
        r.push(v[i]);
        assert(v@.take(i + 1) == v@.take(i as int).push(v@[i as int]));
        i = i + 1;
    }
    assert(v@.take(v@.len() as int) == v@);
    r
}

/// A copy of a list of words.
fn copy_words(v: &Vec<String>) -> (r: Vec<String>)
    ensures
        views(r@) == views(v@),
{
    let mut r: Vec<String> = Vec::new();
    let mut i: usize = 0;
    while i < v.len()
        invariant
            i <= v@.len(),
            views(r@) == views(v@).take(i as int),
        decreases v@.len() - i,
    {
        let ghost before = r@;
        r.push(v[i].clone());
        assert(views(r@) == views(before).push(v@[i as int]@));
        assert(views(v@).take(i + 1) == views(v@).take(i as int).push(v@[i as int]@));
        i = i + 1;
    }
    assert(views(v@).take(v@.len() as int) == views(v@));
    r
}

/// The locations of fragment `f` in the entry of `owner` in `entries`.
fn locations_in(entries: &Vec<TextEntry>, owner: &String, f: &String, n: Ghost<nat>) -> (r: Vec<
    FragmentLocation,
>)
    requires
        partition_wf(entry_views(entries@), n@),
        exists|i: int| 0 <= i < entries@.len() && (#[trigger] entries@[i])@.owner == owner@,
        entry_of_owner(entry_views(entries@), owner@).fragments.contains(f@),
    ensures
        r@ == location_of(entry_of_owner(entry_views(entries@), owner@), f@),
{
    let ghost es = entry_views(entries@);
    let k = find_owner(entries, owner);
    proof {
        let i = choose|i: int| 0 <= i < entries@.len() && (#[trigger] entries@[i])@.owner == owner@;
        assert(es[i].owner == owner@);
        let c = choose|i: int| 0 <= i < es.len() && es[i].owner == owner@;
        assert(k < entries@.len());
        assert(es[k as int].owner == owner@);
        assert(c == k);
    }
    let entry = &entries[k];
    let ghost e = es[k as int];
    assert(e == entry@);
    let j = find_string(&entry.fragments, f);
    proof {
        let g = ngrams(e.words, n@);
        assert(e == entry_from_words(e.owner, e.words, n@));
        lemma_first_seen(g, g.len());
        assert(e.fragments == views(entry.fragments@));
        let c = choose|c: int| 0 <= c < e.fragments.len() && e.fragments[c] == f@;
        assert(j < entry.fragments@.len());
        assert(e.fragments[j as int] == f@);
        assert(c == j);
        assert(e.locations.len() == e.fragments.len());
        assert(e.locations == entry.fragment_locations@.map_values(|l: Vec<FragmentLocation>| l@));
        assert(e.locations[j as int] == entry.fragment_locations@[j as int]@);
    }
    copy_locations(&entry.fragment_locations[j])
}

impl PlagiarismDatabase {
    /// Well-formed: fragments hold at least one word, each entry is the index
    /// of its words, and owners are unique within each partition.
    pub open spec fn wf(&self) -> bool {
        model_wf(self@)
    }

    /// Initializes the plagiarism sensitivity and similarity metric values
    ///     and the actual metric type to be used in computing plagiarism
    ///     scores
    pub fn new(n: usize, s: usize, metric: Metric) -> (r: Result<PlagiarismDatabase, ConfigError>)
        ensures
            n == 0 <==> r is Err,
            r is Err ==> r == Err::<PlagiarismDatabase, ConfigError>(ConfigError::ZeroFragmentLength),
            r matches Ok(db) ==> db.wf() && db@.n == n && db@.s == s && db@.metric == metric
                && db@.trusted.len() == 0 && db@.untrusted.len() == 0,
    {
        if n == 0 {
            return Err(ConfigError::ZeroFragmentLength);
        }
        let db = PlagiarismDatabase {
            n,
            s,
            metric,
            trusted_texts: Vec::new(),
            untrusted_texts: Vec::new(),
        };
        assert(db@.trusted =~= Seq::<EntryModel>::empty());
        assert(db@.untrusted =~= Seq::<EntryModel>::empty());
        Ok(db)
    }

    /// The database after storing `text` as the trusted text of `owner`.
    pub open spec fn with_trusted(m: DatabaseModel, owner: Seq<char>, text: Seq<char>) -> DatabaseModel {
        DatabaseModel {
            n: m.n,
            s: m.s,
            metric: m.metric,
            trusted: insert_entry(m.trusted, entry_of(owner, text, m.n)),
            untrusted: m.untrusted,
        }
    }

    /// The database after storing `text` as the untrusted text of `owner`.
    pub open spec fn with_untrusted(m: DatabaseModel, owner: Seq<char>, text: Seq<char>) -> DatabaseModel {
        DatabaseModel {
            n: m.n,
            s: m.s,
            metric: m.metric,
            trusted: m.trusted,
            untrusted: insert_entry(m.untrusted, entry_of(owner, text, m.n)),
        }
    }

    /// Indexes `text` as the entry of `owner_id`.
    fn make_entry(owner_id: &String, text: &str, n: usize) -> (r: TextEntry)
        requires
            n >= 1,
        ensures
            r@ == entry_of(owner_id@, text@, n as nat),
    {
        let clean_text_words = clean_text(text);
        let (fragments, fragment_locations) = PlagiarismDatabase::get_textfragments(
            &clean_text_words,
            n,
        );
        let r = TextEntry { owner: owner_id.clone(), clean_text_words, fragments, fragment_locations };
        assert(r@ =~= entry_of(owner_id@, text@, n as nat));
        r
    }

    /// Adds a text string as potential plagiarism source material
    pub fn add_trusted_text(&mut self, owner_id: &String, text: &str)
        requires
            old(self).wf(),
        ensures
            final(self).wf(),
            final(self)@ == Self::with_trusted(old(self)@, owner_id@, text@),
    {
        let entry = Self::make_entry(owner_id, text, self.n);
        proof {
            lemma_insert_wf(self@.trusted, entry@, self@.n);
        }
        insert_into(&mut self.trusted_texts, entry);
        assert(self@ =~= Self::with_trusted(old(self)@, owner_id@, text@));
    }

    /// Adds a text string as a potential plagiarized string
    pub fn add_untrusted_text(&mut self, owner_id: &String, text: &str)
        requires
            old(self).wf(),
        ensures
            final(self).wf(),
            final(self)@ == Self::with_untrusted(old(self)@, owner_id@, text@),
    {
        let entry = Self::make_entry(owner_id, text, self.n);
        proof {
            lemma_insert_wf(self@.untrusted, entry@, self@.n);
        }
        insert_into(&mut self.untrusted_texts, entry);
        assert(self@ =~= Self::with_untrusted(old(self)@, owner_id@, text@));
    }

    /// Gets only the ID -> clean text mapping for all texts; an owner with
    ///     both a trusted and an untrusted text maps to the untrusted one
    pub fn get_all_cleantext(&self) -> (r: Vec<(TextOwnerID, Vec<String>)>)
        ensures
            clean_text_views(r@) == all_clean_text(self@),
    {
        let ghost ts = self@.trusted;
        let ghost us = self@.untrusted;
        let mut r: Vec<(TextOwnerID, Vec<String>)> = Vec::new();
        let mut i: usize = 0;
        while i < self.trusted_texts.len()
            invariant
                ts == self@.trusted,
                us == self@.untrusted,
                i <= ts.len(),
                clean_text_views(r@) == trusted_only(ts, us, i as nat),
            decreases ts.len() - i,
        {
            let entry = &self.trusted_texts[i];
            assert(ts[i as int] == entry@);
            let k = find_owner(&self.untrusted_texts, &entry.owner);
            let ghost before = r@;
            if k == self.untrusted_texts.len() {
                proof {
                    assert forall|j: int| 0 <= j < us.len() implies us[j].owner != ts[i as int].owner by {
                        assert(us[j] == self.untrusted_texts@[j]@);
                    }
                }
                r.push((entry.owner.clone(), copy_words(&entry.clean_text_words)));
                assert(clean_text_views(r@) == clean_text_views(before).push(
                    (ts[i as int].owner, ts[i as int].words),
                ));
            } else {
                assert(us[k as int] == self.untrusted_texts@[k as int]@);
            }
            i = i + 1;
        }
        let ghost first = r@;
        let mut j: usize = 0;
        while j < self.untrusted_texts.len()
            invariant
                us == self@.untrusted,
                j <= us.len(),
                clean_text_views(r@) == clean_text_views(first) + us.take(j as int).map_values(
                    |e: EntryModel| (e.owner, e.words),
                ),
            decreases us.len() - j,
        {
            let entry = &self.untrusted_texts[j];
            assert(us[j as int] == entry@);
            let ghost before = r@;
            r.push((entry.owner.clone(), copy_words(&entry.clean_text_words)));
            assert(clean_text_views(r@) == clean_text_views(before).push(
                (us[j as int].owner, us[j as int].words),
            ));
            assert(us.take(j + 1).map_values(|e: EntryModel| (e.owner, e.words)) == us.take(
                j as int,
            ).map_values(|e: EntryModel| (e.owner, e.words)).push(
                (us[j as int].owner, us[j as int].words),
            ));
            j = j + 1;
        }
        assert(us.take(us.len() as int) == us);
        r
    }

    /// Check for plagiarism by comparing metric against cutoff
    ///     for all untrusted textfragments currently in database:
    ///     each unordered pair of distinct owners once
    pub fn check_untrusted_plagiarism(&self) -> (r: Vec<PlagiarismResult>)
        requires
            self.wf(),
        ensures
            result_views(r@) == untrusted_results(
                self@.untrusted,
                self@.untrusted.len(),
                self@.metric,
                self@.s,
            ),
    {
        let ghost us = self@.untrusted;
        let ghost metric = self@.metric;
        let ghost s = self@.s;
        let len = self.untrusted_texts.len();
        let mut results: Vec<PlagiarismResult> = Vec::new();
        let mut i: usize = 0;
        while i < len
            invariant
                self.wf(),
                us == self@.untrusted,
                metric == self@.metric,
                s == self@.s,
                len == us.len(),
                i <= len,
                result_views(results@) == untrusted_results(us, i as nat, metric, s),
            decreases len - i,
        {
            let ghost tail = us.subrange(i + 1, len as int);
            let ghost prefix = untrusted_results(us, i as nat, metric, s);
            let mut j: usize = i + 1;
            while j < len
                invariant
                    self.wf(),
                    us == self@.untrusted,
                    metric == self@.metric,
                    s == self@.s,
                    len == us.len(),
                    i < j <= len,
                    tail == us.subrange(i + 1, len as int),
                    prefix == untrusted_results(us, i as nat, metric, s),
                    result_views(results@) == prefix + results_against(
                        us[i as int],
                        tail,
                        (j - i - 1) as nat,
                        false,
                        metric,
                        s,
                    ),
                decreases len - j,
            {
                proof {
                    assert(us[i as int] == self.untrusted_texts@[i as int]@);
                    assert(us[j as int] == self.untrusted_texts@[j as int]@);
                    assert(us.contains(us[i as int]));
                    assert(us.contains(us[j as int]));
                    assert(tail[j - i - 1] == us[j as int]);
                }
                let ghost before = results@;
                let ghost done = results_against(us[i as int], tail, (j - i - 1) as nat, false, metric, s);
                match self.run_metrics(&self.untrusted_texts[i], &self.untrusted_texts[j], false) {
                    Some(result) => {
                        results.push(result);
                        assert(result_views(results@) == result_views(before).push(result@));
                        assert(prefix + done.push(result@) == (prefix + done).push(result@));
                    },
                    None => {},
                }
                j = j + 1;
            }
            i = i + 1;
        }
        results
    }

    /// Check for plagiarism by comparing metric against cutoff
    ///     for textfragments in database against trusted fragments:
    ///     each trusted owner against each untrusted owner
    pub fn check_trusted_plagiarism(&self) -> (r: Vec<PlagiarismResult>)
        requires
            self.wf(),
        ensures
            result_views(r@) == trusted_results(
                self@.trusted,
                self@.untrusted,
                self@.trusted.len(),
                self@.metric,
                self@.s,
            ),
    {
        let ghost ts = self@.trusted;
        let ghost us = self@.untrusted;
        let ghost metric = self@.metric;
        let ghost s = self@.s;
        let tlen = self.trusted_texts.len();
        let ulen = self.untrusted_texts.len();
        let mut results: Vec<PlagiarismResult> = Vec::new();
        let mut i: usize = 0;
        while i < tlen
            invariant
                self.wf(),
                ts == self@.trusted,
                us == self@.untrusted,
                metric == self@.metric,
                s == self@.s,
                tlen == ts.len(),
                ulen == us.len(),
                i <= tlen,
                result_views(results@) == trusted_results(ts, us, i as nat, metric, s),
            decreases tlen - i,
        {
            let ghost prefix = trusted_results(ts, us, i as nat, metric, s);
            let mut j: usize = 0;
            while j < ulen
                invariant
                    self.wf(),
                    ts == self@.trusted,
                    us == self@.untrusted,
                    metric == self@.metric,
                    s == self@.s,
                    tlen == ts.len(),
                    ulen == us.len(),
                    i < tlen,
                    j <= ulen,
                    prefix == trusted_results(ts, us, i as nat, metric, s),
                    result_views(results@) == prefix + results_against(
                        ts[i as int],
                        us,
                        j as nat,
                        true,
                        metric,
                        s,
                    ),
                decreases ulen - j,
            {
                proof {
                    assert(ts[i as int] == self.trusted_texts@[i as int]@);
                    assert(us[j as int] == self.untrusted_texts@[j as int]@);
                    assert(ts.contains(ts[i as int]));
                    assert(us.contains(us[j as int]));
                }
                let ghost before = results@;
                let ghost done = results_against(ts[i as int], us, j as nat, true, metric, s);
                match self.run_metrics(&self.trusted_texts[i], &self.untrusted_texts[j], true) {
                    Some(result) => {
                        results.push(result);
                        assert(result_views(results@) == result_views(before).push(result@));
                        assert(prefix + done.push(result@) == (prefix + done).push(result@));
                    },
                    None => {},
                }
                j = j + 1;
            }
            i = i + 1;
        }
        results
    }

    /// Helper function to actually run the plagiarism check against sources
    fn run_metrics(&self, source: &TextEntry, against: &TextEntry, is_trusted_owner1: bool) -> (r:
        Option<PlagiarismResult>)
        requires
            self.wf(),
            is_trusted_owner1 ==> self@.trusted.contains(source@),
            !is_trusted_owner1 ==> self@.untrusted.contains(source@),
            self@.untrusted.contains(against@),
        ensures
            r is None <==> pair_result(
                source@,
                against@,
                is_trusted_owner1,
                self@.metric,
                self@.s,
            ) is None,
            r matches Some(x) ==> pair_result(
                source@,
                against@,
                is_trusted_owner1,
                self@.metric,
                self@.s,
            ) == Some(x@),
    {
        let ghost a = source@;
        let ghost b = against@;
        let ghost metric = self@.metric;
        let ghost s = self@.s;
        // Run metrics against both sources to get all matching strings
        let matching_fragments = if self.metric == Metric::Equal {
            self.check_plagiarism_equal(source, against)
        } else {
            self.check_plagiarism_other(source, self.metric, against)
        };
        let ghost ms = fragment_matches(a, b, metric, s);
        assert(pair_views(matching_fragments@) == ms);
        // No plagiarism between these two sources
        if matching_fragments.len() == 0 {
            return None;
        }
        proof {
            lemma_fragment_matches_members(a, b, metric, s);
            if is_trusted_owner1 {
                lemma_owner_entry(self@.trusted, a);
            } else {
                lemma_owner_entry(self@.untrusted, a);
            }
            lemma_owner_entry(self@.untrusted, b);
            assert(a.owner == source.owner@);
            assert(b.owner == against.owner@);
        }
        // Get the locations of each matching fragment from each source text
        let mut matching_fragments_locations: Vec<(Vec<FragmentLocation>, Vec<FragmentLocation>)> =
            Vec::new();
        let mut k: usize = 0;
        while k < matching_fragments.len()
            invariant
                self.wf(),
                a == source@,
                b == against@,
                metric == self@.metric,
                s == self@.s,
                pair_views(matching_fragments@) == ms,
                k <= ms.len(),
                is_trusted_owner1 ==> entry_of_owner(self@.trusted, a.owner) == a,
                is_trusted_owner1 ==> exists|i: int|
                    0 <= i < self@.trusted.len() && self@.trusted[i].owner == a.owner,
                !is_trusted_owner1 ==> entry_of_owner(self@.untrusted, a.owner) == a,
                !is_trusted_owner1 ==> exists|i: int|
                    0 <= i < self@.untrusted.len() && self@.untrusted[i].owner == a.owner,
                entry_of_owner(self@.untrusted, b.owner) == b,
                exists|i: int| 0 <= i < self@.untrusted.len() && self@.untrusted[i].owner == b.owner,
                a.owner == source.owner@,
                b.owner == against.owner@,
                forall|p: (Seq<char>, Seq<char>)| #[trigger]
                    ms.contains(p) ==> a.fragments.contains(p.0) && b.fragments.contains(p.1),
                matching_fragments_locations@.len() == k,
                forall|t: int|
                    0 <= t < k ==> #[trigger] location_views(matching_fragments_locations@)[t] == (
                    location_of(a, ms[t].0),
                    location_of(b, ms[t].1),
                ),
            decreases ms.len() - k,
        {
            let f1 = &matching_fragments[k].0;
            let f2 = &matching_fragments[k].1;
            assert(ms[k as int] == (f1@, f2@));
            assert(ms.contains(ms[k as int]));
            let locations = if is_trusted_owner1 {
                self.fragments_to_locations_trusted(f1, &source.owner, f2, &against.owner)
            } else {
                self.fragments_to_locations(f1, &source.owner, f2, &against.owner)
            };
            let ghost before = matching_fragments_locations@;
            matching_fragments_locations.push(locations);
            assert(location_views(matching_fragments_locations@) == location_views(before).push(
                (locations.0@, locations.1@),
            ));
            k = k + 1;
        }
        // Construct result
        let result = PlagiarismResult {
            owner_id1: source.owner.clone(),
            owner_id2: against.owner.clone(),
            matching_fragments_locations,
            matching_fragments,
            trusted_owner1: is_trusted_owner1,
            equal_fragments: self.metric == Metric::Equal,
        };
        assert(result@.locations =~= ms.map_values(
            |p: (Seq<char>, Seq<char>)| (location_of(a, p.0), location_of(b, p.1)),
        ));
        Some(result)
    }

    /// Takes in a separated tuple of matching fragments and their owner IDs.
    ///     Returns vectors representing where they can be found in their respective texts
    fn fragments_to_locations(
        &self,
        f1: &String,
        owner1: &String,
        f2: &String,
        owner2: &String,
    ) -> (r: (Vec<FragmentLocation>, Vec<FragmentLocation>))
        requires
            self.wf(),
            exists|i: int| 0 <= i < self@.untrusted.len() && self@.untrusted[i].owner == owner1@,
            exists|i: int| 0 <= i < self@.untrusted.len() && self@.untrusted[i].owner == owner2@,
            entry_of_owner(self@.untrusted, owner1@).fragments.contains(f1@),
            entry_of_owner(self@.untrusted, owner2@).fragments.contains(f2@),
        ensures
            r.0@ == location_of(entry_of_owner(self@.untrusted, owner1@), f1@),
            r.1@ == location_of(entry_of_owner(self@.untrusted, owner2@), f2@),
    {
        proof {
            let i = choose|i: int| 0 <= i < self@.untrusted.len() && self@.untrusted[i].owner == owner1@;
            assert(self.untrusted_texts@[i]@.owner == owner1@);
            let i = choose|i: int| 0 <= i < self@.untrusted.len() && self@.untrusted[i].owner == owner2@;
            assert(self.untrusted_texts@[i]@.owner == owner2@);
        }
        let f1_locations = locations_in(&self.untrusted_texts, owner1, f1, Ghost(self@.n));
        let f2_locations = locations_in(&self.untrusted_texts, owner2, f2, Ghost(self@.n));
        (f1_locations, f2_locations)
    }

    /// Takes in a separated tuple of matching fragments and their owner IDs.
    ///     Returns vectors representing where they can be found in their respective texts
    ///     This checks the trusted entries for the first owner
    fn fragments_to_locations_trusted(
        &self,
        f1: &String,
        owner1: &String,
        f2: &String,
        owner2: &String,
    ) -> (r: (Vec<FragmentLocation>, Vec<FragmentLocation>))
        requires
            self.wf(),
            exists|i: int| 0 <= i < self@.trusted.len() && self@.trusted[i].owner == owner1@,
            exists|i: int| 0 <= i < self@.untrusted.len() && self@.untrusted[i].owner == owner2@,
            entry_of_owner(self@.trusted, owner1@).fragments.contains(f1@),
            entry_of_owner(self@.untrusted, owner2@).fragments.contains(f2@),
        ensures
            r.0@ == location_of(entry_of_owner(self@.trusted, owner1@), f1@),
            r.1@ == location_of(entry_of_owner(self@.untrusted, owner2@), f2@),
    {
        proof {
            let i = choose|i: int| 0 <= i < self@.trusted.len() && self@.trusted[i].owner == owner1@;
            assert(self.trusted_texts@[i]@.owner == owner1@);
            let i = choose|i: int| 0 <= i < self@.untrusted.len() && self@.untrusted[i].owner == owner2@;
            assert(self.untrusted_texts@[i]@.owner == owner2@);
        }
        let f1_locations = locations_in(&self.trusted_texts, owner1, f1, Ghost(self@.n));
        let f2_locations = locations_in(&self.untrusted_texts, owner2, f2, Ghost(self@.n));
        (f1_locations, f2_locations)
    }

    /// Checks plagiarism by equality of fragments
    /// Returns a tuple of all matches (second tuple element is identical to first)
    fn check_plagiarism_equal(&self, source: &TextEntry, against: &TextEntry) -> (r: Vec<
        (String, String),
    >)
        ensures
            pair_views(r@) == equal_matches(
                source@.fragments,
                against@.fragments,
                source@.fragments.len(),
            ),
    {
        let ghost a = source@.fragments;
        let ghost b = against@.fragments;
        let mut results: Vec<(String, String)> = Vec::new();
        let mut i: usize = 0;
        while i < source.fragments.len()
            invariant
                a == views(source.fragments@),
                b == views(against.fragments@),
                i <= a.len(),
                pair_views(results@) == equal_matches(a, b, i as nat),
            decreases a.len() - i,
        {
            let f = &source.fragments[i];
            let pos = find_string(&against.fragments, f);
            let ghost old_results = results@;
            if pos < against.fragments.len() {
                assert(b[pos as int] == a[i as int]);
                results.push((f.clone(), f.clone()));
                assert(pair_views(results@) == pair_views(old_results).push((a[i as int], a[i as int])));
            }
            i = i + 1;
        }
        results
    }

    /// Checks plagiarism by a similarity metric, fragment by fragment
    /// Returns a tuple of all matches, one fragment from each source
    fn check_plagiarism_other(&self, source: &TextEntry, metric: Metric, against: &TextEntry) -> (r:
        Vec<(String, String)>)
        ensures
            pair_views(r@) == similar_matches(
                source@.fragments,
                against@.fragments,
                source@.fragments.len(),
                metric,
                self.s as nat,
            ),
    {
        let ghost a = source@.fragments;
        let ghost b = against@.fragments;
        let mut results: Vec<(String, String)> = Vec::new();
        let mut i: usize = 0;
        while i < source.fragments.len()
            invariant
                a == views(source.fragments@),
                b == views(against.fragments@),
                i <= a.len(),
                pair_views(results@) == similar_matches(a, b, i as nat, metric, self.s as nat),
            decreases a.len() - i,
        {
            let source_frag = &source.fragments[i];
            let mut j: usize = 0;
            while j < against.fragments.len()
                invariant
                    a == views(source.fragments@),
                    b == views(against.fragments@),
                    i < a.len(),
                    j <= b.len(),
                    source_frag@ == a[i as int],
                    pair_views(results@) == similar_matches(a, b, i as nat, metric, self.s as nat)
                        + similar_row(a[i as int], b, j as nat, metric, self.s as nat),
                decreases b.len() - j,
            {
                let against_frag = &against.fragments[j];
                let ghost old_results = results@;
                if is_plagiarised(source_frag, against_frag, metric, self.s) {
                    results.push((source_frag.clone(), against_frag.clone()));
                    assert(pair_views(results@) == pair_views(old_results).push(
                        (a[i as int], b[j as int]),
                    ));
                }
                j = j + 1;
            }
            i = i + 1;
        }
        results
    }

    /// Splits a word sequence into its distinct fragments of `n` words, in
    ///     order of first occurrence, and where each of them occurs
    pub fn get_textfragments(words: &Vec<String>, n: usize) -> (r: (
        Vec<String>,
        Vec<Vec<FragmentLocation>>,
    ))
        requires
            n >= 1,
        ensures
            views(r.0@) == distinct_fragments(views(words@), n as nat),
            r.1@.map_values(|l: Vec<FragmentLocation>| l@) == locations_of_fragments(
                views(words@),
                n as nat,
            ),
            views(r.0@).no_duplicates(),
            forall|f: Seq<char>| #[trigger]
                views(r.0@).contains(f) <==> ngrams(views(words@), n as nat).contains(f),
    {
        let grams = extract_clean_word_ngrams(words, n);
        let ghost g = ngrams(views(words@), n as nat);
        let mut fragments: Vec<String> = Vec::new();
        let mut fragment_locations: Vec<Vec<FragmentLocation>> = Vec::new();
        let wlen = words.len();
        let mut i: usize = 0;
        while i < grams.len()
            invariant
                views(grams@) == g,
                wlen == words@.len(),
                g.len() > 0 ==> g.len() + n == wlen + 1,
                n >= 1,
                i <= g.len(),
                views(fragments@) == first_seen(g, i as nat),
                fragment_locations@.len() == fragments@.len(),
                forall|j: int|
                    0 <= j < fragments@.len() ==> (#[trigger] fragment_locations@[j])@ == occurrences(
                        g,
                        fragments@[j]@,
                        i as nat,
                        n as nat,
                    ),
            decreases g.len() - i,
        {
            proof {
                lemma_first_seen(g, i as nat);
            }
            let loc: FragmentLocation = (i, i + n);
            let pos = find_string(&fragments, &grams[i]);
            let ghost fs = views(fragments@);
            let ghost ls = fragment_locations@;
            assert(grams@[i as int]@ == g[i as int]);
            if pos < fragments.len() {
                assert(fs[pos as int] == g[i as int]);
                assert(fs.contains(g[i as int]));
                fragment_locations[pos].push(loc);
                proof {
                    assert forall|j: int| 0 <= j < fragments@.len() implies (
                    #[trigger] fragment_locations@[j])@ == occurrences(
                        g,
                        fragments@[j]@,
                        (i + 1) as nat,
                        n as nat,
                    ) by {
                        if j != pos {
                            assert(fs[j] == fragments@[j]@);
                            assert(fs[j] != fs[pos as int]);
                            assert(fragment_locations@[j] == ls[j]);
                        }
                    }
                }
            } else {
                let f = grams[i].clone();
                fragments.push(f);
                let mut l: Vec<FragmentLocation> = Vec::new();
                l.push(loc);
                fragment_locations.push(l);
                proof {
                    assert(views(fragments@) == fs.push(g[i as int]));
                    assert forall|j: int| 0 <= j < fragments@.len() implies (
                    #[trigger] fragment_locations@[j])@ == occurrences(
                        g,
                        fragments@[j]@,
                        (i + 1) as nat,
                        n as nat,
                    ) by {
                        if j < fs.len() {
                            assert(fs[j] == fragments@[j]@);
                            assert(fs.contains(fs[j]));
                            assert(fragment_locations@[j] == ls[j]);
                        } else {
                            assert(occurrences(g, g[i as int], i as nat, n as nat) =~= Seq::<
                                FragmentLocation,
                            >::empty()) by {
                                lemma_occurrences_absent(g, g[i as int], i as nat, n as nat);
                            }
                        }
                    }
                }
            }
            i = i + 1;
        }
        proof {
            assert(fragment_locations@.map_values(|l: Vec<FragmentLocation>| l@) =~= locations_of_fragments(
                views(words@),
                n as nat,
            ));
            lemma_first_seen(g, g.len());
            assert(g.take(g.len() as int) == g);
        }
        (fragments, fragment_locations)
    }
}

/// In a partition of unique owners, an entry is the entry of its owner.
proof fn lemma_owner_entry(es: Seq<EntryModel>, e: EntryModel)
    requires
        owners_unique(es),
        es.contains(e),
    ensures
        entry_of_owner(es, e.owner) == e,
        exists|i: int| 0 <= i < es.len() && es[i].owner == e.owner,
{
    let i = choose|i: int| 0 <= i < es.len() && es[i] == e;
    assert(es[i].owner == e.owner);
    let c = choose|c: int| 0 <= c < es.len() && es[c].owner == e.owner;
    assert(c == i);
}

/// Storing an indexed entry keeps every entry of a partition indexed.
proof fn lemma_insert_wf(es: Seq<EntryModel>, e: EntryModel, n: nat)
    requires
        partition_wf(es, n),
        e == entry_from_words(e.owner, e.words, n),
    ensures
        entries_indexed(insert_entry(es, e), n),
{
}

/// A fragment absent from the first `k` n-grams has no occurrence among them.
proof fn lemma_occurrences_absent(g: Seq<Seq<char>>, f: Seq<char>, k: nat, n: nat)
    requires
        k <= g.len(),
        !first_seen(g, k).contains(f),
    ensures
        occurrences(g, f, k, n) == Seq::<FragmentLocation>::empty(),
    decreases k,
{
    if k > 0 {
        lemma_first_seen(g, k);
        lemma_first_seen(g, (k - 1) as nat);
        assert(g.take(k as int)[k - 1] == g[k - 1]);
        lemma_occurrences_absent(g, f, (k - 1) as nat, n);
    }
}

} // verus!
