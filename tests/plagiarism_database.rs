use plagiarism::metric::{is_plagiarised, levenshtein, Metric};
use plagiarism::plagiarism_database::{ConfigError, PlagiarismDatabase, PlagiarismResult};
use plagiarism::text::{clean_text, extract_clean_word_ngrams, fragment_at};

fn words(ws: &[&str]) -> Vec<String> {
    ws.iter().map(|w| w.to_string()).collect()
}

fn pairs(r: &PlagiarismResult) -> Vec<(String, String)> {
    let mut v = r.matching_fragments.clone();
    v.sort();
    v
}

fn db(n: usize, s: usize, metric: Metric) -> PlagiarismDatabase {
    PlagiarismDatabase::new(n, s, metric).unwrap()
}

#[test]
fn fragments_and_locations_of_repeated_bigrams() {
    let (fragments, locations) =
        PlagiarismDatabase::get_textfragments(&words(&["a", "b", "a", "b"]), 2);
    assert_eq!(fragments, words(&["a b", "b a"]));
    assert_eq!(locations, vec![vec![(0, 2), (2, 4)], vec![(1, 3)]]);
}

#[test]
fn fragments_of_too_short_text_are_empty() {
    let (fragments, locations) = PlagiarismDatabase::get_textfragments(&words(&["a", "b"]), 3);
    assert!(fragments.is_empty());
    assert!(locations.is_empty());
    let (fragments, _) = PlagiarismDatabase::get_textfragments(&Vec::new(), 1);
    assert!(fragments.is_empty());
}

#[test]
fn fragments_of_window_equal_to_length() {
    let (fragments, locations) = PlagiarismDatabase::get_textfragments(&words(&["x", "y", "z"]), 3);
    assert_eq!(fragments, words(&["x y z"]));
    assert_eq!(locations, vec![vec![(0, 3)]]);
}

#[test]
fn clean_text_splits_on_whitespace() {
    assert_eq!(
        clean_text("  Hello,  world\tfoo\nbar\r\n"),
        words(&["Hello,", "world", "foo", "bar"])
    );
    assert!(clean_text("").is_empty());
    assert!(clean_text(" \t\n").is_empty());
    assert_eq!(clean_text("héllo wörld"), words(&["héllo", "wörld"]));
}

#[test]
fn ngrams_join_words_with_single_spaces() {
    let ws = words(&["one", "two", "three", "four"]);
    assert_eq!(fragment_at(&ws, 1, 2), "two three");
    assert_eq!(fragment_at(&ws, 0, 1), "one");
    assert_eq!(extract_clean_word_ngrams(&ws, 3), words(&["one two three", "two three four"]));
    assert!(extract_clean_word_ngrams(&ws, 5).is_empty());
}

#[test]
fn levenshtein_values() {
    assert_eq!(levenshtein("kitten", "sitting"), 3);
    assert_eq!(levenshtein("", "abc"), 3);
    assert_eq!(levenshtein("abc", ""), 3);
    assert_eq!(levenshtein("same", "same"), 0);
    assert_eq!(levenshtein("flaw", "lawn"), 2);
    assert_eq!(levenshtein("café", "cafe"), 1);
}

#[test]
fn similarity_boundary_is_inclusive() {
    let a = "kitten".to_string();
    let b = "sitting".to_string();
    assert!(is_plagiarised(&a, &b, Metric::Levenshtein, 3));
    assert!(!is_plagiarised(&a, &b, Metric::Levenshtein, 2));
    assert!(is_plagiarised(&a, &a, Metric::Equal, 0));
    assert!(!is_plagiarised(&a, &b, Metric::Equal, 100));
}

#[test]
fn zero_fragment_length_is_rejected() {
    assert_eq!(
        PlagiarismDatabase::new(0, 0, Metric::Equal).err(),
        Some(ConfigError::ZeroFragmentLength)
    );
    assert!(PlagiarismDatabase::new(1, 0, Metric::Equal).is_ok());
}

#[test]
fn identical_texts_match_on_every_fragment() {
    let mut d = db(2, 0, Metric::Equal);
    d.add_untrusted_text(&"x".to_string(), "a b c a");
    d.add_untrusted_text(&"y".to_string(), "a b c a");
    let results = d.check_untrusted_plagiarism();
    assert_eq!(results.len(), 1);
    let r = &results[0];
    assert_eq!(r.owner_id1, "x");
    assert_eq!(r.owner_id2, "y");
    assert!(r.equal_fragments);
    assert!(!r.trusted_owner1);
    assert_eq!(
        pairs(r),
        vec![
            ("a b".to_string(), "a b".to_string()),
            ("b c".to_string(), "b c".to_string()),
            ("c a".to_string(), "c a".to_string()),
        ]
    );
    assert_eq!(r.matching_fragments.len(), r.matching_fragments_locations.len());
    for (i, (f1, _)) in r.matching_fragments.iter().enumerate() {
        let expected = match f1.as_str() {
            "a b" => vec![(0, 2)],
            "b c" => vec![(1, 3)],
            _ => vec![(2, 4)],
        };
        assert_eq!(r.matching_fragments_locations[i].0, expected);
        assert_eq!(r.matching_fragments_locations[i].1, expected);
    }
}

#[test]
fn equal_matching_is_symmetric() {
    let mut d1 = db(2, 0, Metric::Equal);
    d1.add_untrusted_text(&"x".to_string(), "the cat sat on the mat");
    d1.add_untrusted_text(&"y".to_string(), "on the mat the cat slept");
    let mut d2 = db(2, 0, Metric::Equal);
    d2.add_untrusted_text(&"y".to_string(), "on the mat the cat slept");
    d2.add_untrusted_text(&"x".to_string(), "the cat sat on the mat");
    let r1 = d1.check_untrusted_plagiarism();
    let r2 = d2.check_untrusted_plagiarism();
    assert_eq!(r1.len(), 1);
    assert_eq!(r2.len(), 1);
    assert_eq!(r1[0].owner_id1, "x");
    assert_eq!(r2[0].owner_id1, "y");
    assert_eq!(pairs(&r1[0]), pairs(&r2[0]));
    assert_eq!(
        pairs(&r1[0]),
        vec![
            ("on the".to_string(), "on the".to_string()),
            ("the cat".to_string(), "the cat".to_string()),
            ("the mat".to_string(), "the mat".to_string()),
        ]
    );
}

#[test]
fn untrusted_check_never_compares_an_owner_with_itself() {
    let mut d = db(1, 0, Metric::Equal);
    d.add_untrusted_text(&"a".to_string(), "same words here");
    d.add_untrusted_text(&"b".to_string(), "same words here");
    d.add_untrusted_text(&"c".to_string(), "same words here");
    let results = d.check_untrusted_plagiarism();
    assert_eq!(results.len(), 3);
    for r in &results {
        assert_ne!(r.owner_id1, r.owner_id2);
    }
    let owners: Vec<(String, String)> =
        results.iter().map(|r| (r.owner_id1.clone(), r.owner_id2.clone())).collect();
    assert_eq!(
        owners,
        vec![
            ("a".to_string(), "b".to_string()),
            ("a".to_string(), "c".to_string()),
            ("b".to_string(), "c".to_string()),
        ]
    );
}

#[test]
fn re_adding_an_owner_replaces_its_text() {
    let mut d = db(2, 0, Metric::Equal);
    d.add_untrusted_text(&"x".to_string(), "a b c");
    d.add_untrusted_text(&"y".to_string(), "a b c");
    assert_eq!(d.check_untrusted_plagiarism().len(), 1);
    d.add_untrusted_text(&"x".to_string(), "d e f");
    assert!(d.check_untrusted_plagiarism().is_empty());
    let all = d.get_all_cleantext();
    assert_eq!(all.len(), 2);
    assert_eq!(all[0], ("x".to_string(), words(&["d", "e", "f"])));
    assert_eq!(all[1], ("y".to_string(), words(&["a", "b", "c"])));
}

#[test]
fn re_adding_a_trusted_owner_replaces_its_text() {
    let mut d = db(2, 0, Metric::Equal);
    d.add_trusted_text(&"src".to_string(), "a b c");
    d.add_untrusted_text(&"y".to_string(), "a b c");
    assert_eq!(d.check_trusted_plagiarism().len(), 1);
    d.add_trusted_text(&"src".to_string(), "x y z");
    assert!(d.check_trusted_plagiarism().is_empty());
}

#[test]
fn no_shared_fragments_no_result() {
    let mut d = db(2, 0, Metric::Equal);
    d.add_untrusted_text(&"x".to_string(), "alpha beta gamma");
    d.add_untrusted_text(&"y".to_string(), "delta epsilon zeta");
    d.add_trusted_text(&"t".to_string(), "beta alpha");
    assert!(d.check_untrusted_plagiarism().is_empty());
    assert!(d.check_trusted_plagiarism().is_empty());
}

#[test]
fn no_similar_fragments_no_result() {
    let mut d = db(1, 1, Metric::Levenshtein);
    d.add_untrusted_text(&"x".to_string(), "house");
    d.add_untrusted_text(&"y".to_string(), "garden");
    assert!(d.check_untrusted_plagiarism().is_empty());
}

#[test]
fn trusted_check_reports_trusted_owner_first() {
    let mut d = db(2, 0, Metric::Equal);
    d.add_trusted_text(&"book".to_string(), "the quick brown fox");
    d.add_untrusted_text(&"s1".to_string(), "a quick brown dog");
    d.add_untrusted_text(&"s2".to_string(), "nothing in common");
    let results = d.check_trusted_plagiarism();
    assert_eq!(results.len(), 1);
    let r = &results[0];
    assert_eq!(r.owner_id1, "book");
    assert_eq!(r.owner_id2, "s1");
    assert!(r.trusted_owner1);
    assert!(r.equal_fragments);
    assert_eq!(
        r.matching_fragments,
        vec![("quick brown".to_string(), "quick brown".to_string())]
    );
    assert_eq!(r.matching_fragments_locations, vec![(vec![(1, 3)], vec![(1, 3)])]);
    assert!(d.check_untrusted_plagiarism().is_empty());
}

#[test]
fn similarity_metric_matches_close_fragments() {
    let mut d = db(1, 1, Metric::Levenshtein);
    d.add_untrusted_text(&"x".to_string(), "cat dog");
    d.add_untrusted_text(&"y".to_string(), "cut");
    let results = d.check_untrusted_plagiarism();
    assert_eq!(results.len(), 1);
    let r = &results[0];
    assert!(!r.equal_fragments);
    assert_eq!(r.matching_fragments, vec![("cat".to_string(), "cut".to_string())]);
    assert_eq!(r.matching_fragments_locations, vec![(vec![(0, 1)], vec![(0, 1)])]);
}

#[test]
fn similarity_boundary_in_database() {
    let mut at = db(1, 3, Metric::Levenshtein);
    at.add_untrusted_text(&"x".to_string(), "kitten");
    at.add_untrusted_text(&"y".to_string(), "sitting");
    assert_eq!(at.check_untrusted_plagiarism().len(), 1);
    let mut below = db(1, 2, Metric::Levenshtein);
    below.add_untrusted_text(&"x".to_string(), "kitten");
    below.add_untrusted_text(&"y".to_string(), "sitting");
    assert!(below.check_untrusted_plagiarism().is_empty());
}

#[test]
fn all_clean_text_prefers_untrusted() {
    let mut d = db(2, 0, Metric::Equal);
    d.add_trusted_text(&"shared".to_string(), "trusted words");
    d.add_trusted_text(&"t".to_string(), "only trusted");
    d.add_untrusted_text(&"shared".to_string(), "untrusted words");
    let all = d.get_all_cleantext();
    assert_eq!(
        all,
        vec![
            ("t".to_string(), words(&["only", "trusted"])),
            ("shared".to_string(), words(&["untrusted", "words"])),
        ]
    );
}

#[test]
fn same_owner_in_both_partitions_is_compared() {
    let mut d = db(2, 0, Metric::Equal);
    d.add_trusted_text(&"o".to_string(), "one two three");
    d.add_untrusted_text(&"o".to_string(), "one two four");
    let results = d.check_trusted_plagiarism();
    assert_eq!(results.len(), 1);
    assert_eq!(results[0].owner_id1, "o");
    assert_eq!(results[0].owner_id2, "o");
    assert!(d.check_untrusted_plagiarism().is_empty());
}
