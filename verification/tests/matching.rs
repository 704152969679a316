use hellcall::matcher::distance::levenshtein;
use hellcall::matcher::fuzzy::FuzzyMatcher;
use hellcall::matcher::jaro::jaro_winkler;
use hellcall::matcher::levenshtein::LevenshteinMatcher;

fn chars(s: &str) -> Vec<char> {
    s.chars().collect()
}

#[test]
fn levenshtein_known_distances() {
    assert_eq!(levenshtein(&chars("kitten"), &chars("sitting")), 3);
    assert_eq!(levenshtein(&chars(""), &chars("abc")), 3);
    assert_eq!(levenshtein(&chars("abc"), &chars("")), 3);
    assert_eq!(levenshtein(&chars("abc"), &chars("abc")), 0);
    assert_eq!(levenshtein(&chars("flaw"), &chars("lawn")), 2);
}

#[test]
fn levenshtein_agrees_with_reference_implementation() {
    let pairs = [
        ("kitten", "sitting"),
        ("hello", "hellp"),
        ("开启补给", "开启补及"),
        ("", "x"),
        ("same", "same"),
        ("ab", "ba"),
        ("levenshtein", "frankenstein"),
    ];
    for (a, b) in pairs {
        assert_eq!(
            levenshtein(&chars(a), &chars(b)),
            strsim::levenshtein(a, b),
            "distance mismatch for {a:?} / {b:?}"
        );
    }
}

#[test]
fn jaro_winkler_agrees_with_reference_implementation() {
    let pairs = [
        ("cheeseburger", "cheese fries"),
        ("kitten", "sitting"),
        ("hello", "hellp"),
        ("开启补给", "开启补及"),
        ("", ""),
        ("", "abc"),
        ("abc", ""),
        ("same", "same"),
        ("dwayne", "duane"),
        ("martha", "marhta"),
        ("dixon", "dicksonx"),
    ];
    for (a, b) in pairs {
        let (num, den) = jaro_winkler(&chars(a), &chars(b));
        let exact = num as f64 / den as f64;
        let reference = strsim::jaro_winkler(a, b);
        assert!(
            (exact - reference).abs() < 1e-12,
            "similarity mismatch for {a:?} / {b:?}: {exact} vs {reference}"
        );
    }
}

#[test]
fn exact_match_is_always_selected() {
    let dict = vec![
        "open the door".to_string(),
        "hello".to_string(),
        "hellp".to_string(),
    ];
    let mut m = LevenshteinMatcher::new(dict);
    assert_eq!(m.match_str("hello"), Some("hello".to_string()));
    assert_eq!(m.match_str("hellp"), Some("hellp".to_string()));
}

#[test]
fn near_match_within_one_edit_is_found() {
    let mut m = LevenshteinMatcher::new(vec!["hello".to_string(), "world".to_string()]);
    assert_eq!(m.match_str("hellp"), Some("hello".to_string()));
}

#[test]
fn distant_input_matches_nothing() {
    let mut m = LevenshteinMatcher::new(vec!["kitten".to_string()]);
    assert_eq!(m.match_str("sitting"), None);
    assert_eq!(m.match_str("zzzzzz"), None);
}

#[test]
fn matching_strips_spaces_from_both_sides() {
    // Candidates and the utterance are normalised by removing spaces
    // before scoring; the configured spelling is returned.
    let mut m = LevenshteinMatcher::new(vec!["open door".to_string()]);
    assert_eq!(m.match_str("opendoor"), Some("open door".to_string()));
    assert_eq!(m.match_str("open door"), Some("open door".to_string()));
    assert_eq!(m.match_str("opendoo"), Some("open door".to_string()));
}

#[test]
fn multibyte_command_within_one_edit() {
    let mut m = LevenshteinMatcher::new(vec![
        "开启补给".to_string(),
        "呼叫支援".to_string(),
    ]);
    assert_eq!(m.match_str("开启补及"), Some("开启补给".to_string()));
    assert_eq!(m.match_str("呼叫支援"), Some("呼叫支援".to_string()));
}

#[test]
fn empty_dictionary_matches_nothing() {
    let mut m = LevenshteinMatcher::new(Vec::new());
    assert_eq!(m.match_str("anything"), None);
}

#[test]
fn matcher_caches_successful_lookups() {
    let mut m = LevenshteinMatcher::new(vec!["hello".to_string()]);
    assert_eq!(m.match_str("hellp"), Some("hello".to_string()));
    assert_eq!(m.normalized_cache.len(), 1);
    // The cached answer is returned verbatim for the same exact input.
    assert_eq!(m.match_str("hellp"), Some("hello".to_string()));
    assert_eq!(m.normalized_cache.len(), 1);
    // A miss is not cached.
    assert_eq!(m.match_str("zzzzzz"), None);
    assert_eq!(m.normalized_cache.len(), 1);
}

#[test]
fn fuzzy_matcher_picks_nearest_and_first_on_ties() {
    let f = FuzzyMatcher::new(vec![
        "abcd".to_string(),
        "abce".to_string(),
        "wxyz".to_string(),
    ]);
    // "abcf" is at distance 1 from both of the first two: first wins.
    assert_eq!(f.match_str("abcf"), Some("abcd".to_string()));
    assert_eq!(f.match_str("wxyq"), Some("wxyz".to_string()));
    let empty = FuzzyMatcher::new(Vec::new());
    assert_eq!(empty.match_str("abc"), None);
}

#[test]
fn fuzzy_matcher_always_answers_on_nonempty_dictionary() {
    let f = FuzzyMatcher::new(vec!["only".to_string()]);
    assert_eq!(f.match_str("completely different"), Some("only".to_string()));
}
