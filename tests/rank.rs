use yeet::entry::{App, CustomApp};
use yeet::rank::{contains_chars, cutoff_score, rank, rank_scored, starts_with_chars, RankConfig, SearchIndex};

fn app(name: &str, keywords: &[&str]) -> App {
    App::from_custom(&CustomApp {
        name: name.to_string(),
        command: name.to_lowercase(),
        icon: None,
        keywords: keywords.iter().map(|s| s.to_string()).collect(),
    })
}

fn chars(s: &str) -> Vec<char> {
    s.chars().collect()
}

fn config() -> RankConfig {
    RankConfig {
        initial_results: 2,
        max_results: 10,
        min_score: 20,
        score_threshold_ppm: 500000,
        prefer_prefix: true,
    }
}

fn catalog() -> Vec<App> {
    vec![
        app("Firefox", &["browser", "web"]),
        app("GIMP", &["image", "editor"]),
        app("Files", &["folder"]),
        app("Omega Tool", &[]),
        app("Gamma", &[]),
    ]
}

#[test]
fn index_holds_lowercase_and_keyword_texts() {
    let index = SearchIndex::new(&catalog());
    assert_eq!(index.names_lower[1], chars("gimp"));
    assert_eq!(index.texts[0], "Firefox browser web");
    assert_eq!(index.texts_lower[0], chars("firefox browser web"));
    assert_eq!(index.texts[3], "Omega Tool");
}

#[test]
fn empty_query_shows_first_entries() {
    let index = SearchIndex::new(&catalog());
    assert_eq!(rank(&index, "", &config()), vec![0, 1]);
    assert_eq!(rank(&index, "   ", &config()), vec![0, 1]);
    let mut c = config();
    c.initial_results = 50;
    assert_eq!(rank(&index, "", &c), vec![0, 1, 2, 3, 4]);
}

#[test]
fn substring_query_returns_only_matching_entries() {
    let index = SearchIndex::new(&catalog());
    let r = rank(&index, "fire", &config());
    assert_eq!(r, vec![0]);
    let r = rank(&index, "  FIRE ", &config());
    assert_eq!(r, vec![0]);
    let r = rank(&index, "fi", &config());
    assert!(!r.is_empty());
    for i in &r {
        assert!(index.texts[*i].to_lowercase().contains("fi"));
    }
    assert!(r.contains(&0) && r.contains(&2));
}

#[test]
fn keyword_substring_matches() {
    let index = SearchIndex::new(&catalog());
    assert_eq!(rank(&index, "folder", &config()), vec![2]);
}

#[test]
fn fuzzy_fallback_finds_scattered_letters() {
    let index = SearchIndex::new(&catalog());
    let mut c = config();
    c.min_score = 0;
    c.score_threshold_ppm = 0;
    let r = rank(&index, "ffx", &c);
    assert_eq!(r.first(), Some(&0));
}

#[test]
fn result_count_is_capped() {
    let index = SearchIndex::new(&catalog());
    let mut c = config();
    c.max_results = 1;
    let r = rank(&index, "e", &c);
    assert!(r.len() <= 1);
}

#[test]
fn fuzzy_mode_prunes_by_floor_and_relative_cutoff() {
    let index = SearchIndex::new(&vec![app("Alpha", &[]), app("Beta", &[]), app("Gamma", &[]), app("Delta", &[])]);
    let scores = vec![Some(10), Some(100), Some(60), Some(49)];
    let mut c = config();
    c.prefer_prefix = false;
    assert_eq!(rank_scored(&index, &chars("zz"), 2, &scores, &c), vec![1, 2]);
    c.max_results = 1;
    assert_eq!(rank_scored(&index, &chars("zz"), 2, &scores, &c), vec![1]);
    c.max_results = 10;
    c.score_threshold_ppm = 0;
    assert_eq!(rank_scored(&index, &chars("zz"), 2, &scores, &c), vec![1, 2, 3]);
    c.score_threshold_ppm = 2000000;
    assert_eq!(rank_scored(&index, &chars("zz"), 2, &scores, &c), vec![1]);
}

#[test]
fn single_character_query_keeps_every_fuzzy_match() {
    let index = SearchIndex::new(&vec![app("Alpha", &[]), app("Beta", &[]), app("Gamma", &[])]);
    let scores = vec![Some(-5), None, Some(3)];
    let mut c = config();
    assert_eq!(rank_scored(&index, &chars("a"), 1, &scores, &c), vec![0, 2]);
    c.prefer_prefix = false;
    assert_eq!(rank_scored(&index, &chars("a"), 1, &scores, &c), vec![2, 0]);
}

#[test]
fn substring_mode_ignores_score_floor_and_pins_prefixes() {
    let index = SearchIndex::new(&vec![app("Omega Tool", &[]), app("Gamma", &[]), app("Other", &[])]);
    let scores = vec![Some(90), Some(10), Some(500)];
    let c = config();
    assert_eq!(rank_scored(&index, &chars("ga"), 2, &scores, &c), vec![1, 0]);
    let mut c2 = config();
    c2.prefer_prefix = false;
    assert_eq!(rank_scored(&index, &chars("ga"), 2, &scores, &c2), vec![0, 1]);
}

#[test]
fn equal_scores_keep_catalog_order() {
    let index = SearchIndex::new(&vec![app("Bb", &[]), app("Ab", &[]), app("Cb", &[])]);
    let scores = vec![Some(5), Some(7), Some(5)];
    let mut c = config();
    c.prefer_prefix = false;
    assert_eq!(rank_scored(&index, &chars("b"), 1, &scores, &c), vec![1, 0, 2]);
}

#[test]
fn cutoff_truncates_toward_zero() {
    assert_eq!(cutoff_score(100, 500000), 50);
    assert_eq!(cutoff_score(99, 500000), 49);
    assert_eq!(cutoff_score(-99, 500000), -49);
    assert_eq!(cutoff_score(100, 5000000), 100);
    assert_eq!(cutoff_score(100, 0), 0);
    assert_eq!(cutoff_score(i64::MAX, 1000000), i64::MAX);
    assert_eq!(cutoff_score(i64::MIN, 1000000), i64::MIN);
}

#[test]
fn substring_and_prefix_helpers() {
    assert!(contains_chars(&chars("firefox browser"), &chars("fox b")));
    assert!(!contains_chars(&chars("firefox"), &chars("foxy")));
    assert!(contains_chars(&chars("abc"), &chars("")));
    assert!(starts_with_chars(&chars("gamma"), &chars("ga")));
    assert!(!starts_with_chars(&chars("omega"), &chars("ga")));
}
