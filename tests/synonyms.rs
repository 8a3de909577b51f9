use synonyms::aggregate::{aggregate, positions_fit};
use synonyms::extract::{extract, HtmlNode, Link, NodeTest, Step};
use synonyms::present::report;
use synonyms::query::{gather, query_word, FailurePolicy, UsageError};
use synonyms::source::Source;

fn src(items: &[(usize, &str)]) -> Vec<(usize, String)> {
    items.iter().map(|(p, t)| (*p, t.to_string())).collect()
}

fn ranked(items: &[(&str, usize)]) -> Vec<(String, usize)> {
    items.iter().map(|(t, s)| (t.to_string(), *s)).collect()
}

fn element(parent: Option<usize>, name: &str, id: Option<&str>, class: Option<&str>, text: &str) -> HtmlNode {
    HtmlNode {
        parent,
        name: Some(name.to_string()),
        id: id.map(String::from),
        class_attr: class.map(String::from),
        text: text.to_string(),
    }
}

#[test]
fn three_sources_scenario() {
    let a = src(&[(0, "happy"), (1, "glad")]);
    let b = src(&[(0, "glad"), (1, "content")]);
    let c = src(&[]);
    let r = aggregate(&vec![a, b, c]);
    assert_eq!(r, ranked(&[("happy", 0), ("glad", 1), ("content", 1)]));
    let lines = report("joyful", &r);
    assert_eq!(lines, vec!["Synonyms for joyful", "- happy", "- glad", "- content"]);
}

#[test]
fn all_sources_empty() {
    let r = aggregate(&vec![src(&[]), src(&[]), src(&[])]);
    assert!(r.is_empty());
    assert_eq!(report("word", &r), vec!["Synonyms for word"]);
}

#[test]
fn missing_word_is_a_usage_error() {
    assert_eq!(query_word(None), Err(UsageError::MissingWord));
}

#[test]
fn query_word_is_trimmed_and_lowercased() {
    assert_eq!(query_word(Some("  HaPPy \n".to_string())), Ok("happy".to_string()));
}

#[test]
fn union_of_texts_is_kept() {
    let r = aggregate(&vec![src(&[(0, "a"), (1, "b")]), src(&[(0, "c")]), src(&[(0, "b"), (1, "d")])]);
    let mut texts: Vec<String> = r.iter().map(|(t, _)| t.clone()).collect();
    texts.sort();
    assert_eq!(texts, vec!["a", "b", "c", "d"]);
}

#[test]
fn single_occurrence_scores_its_position() {
    let r = aggregate(&vec![src(&[(0, "x"), (1, "y"), (2, "z")]), src(&[]), src(&[(0, "w")])]);
    let z = r.iter().find(|(t, _)| t == "z").unwrap();
    assert_eq!(z.1, 2);
}

#[test]
fn two_occurrences_sum_positions() {
    let r = aggregate(&vec![src(&[(0, "x"), (1, "y"), (2, "z")]), src(&[(0, "q"), (1, "r"), (2, "s"), (3, "z")]), src(&[])]);
    let z = r.iter().find(|(t, _)| t == "z").unwrap();
    assert_eq!(z.1, 5);
}

#[test]
fn duplicates_within_a_source_are_summed() {
    let r = aggregate(&vec![src(&[(0, "x"), (1, "y"), (2, "x")])]);
    assert_eq!(r, ranked(&[("y", 1), ("x", 2)]));
}

#[test]
fn output_is_sorted_by_score() {
    let r = aggregate(&vec![
        src(&[(0, "e"), (1, "d"), (2, "c"), (3, "b")]),
        src(&[(0, "b"), (1, "a"), (2, "e")]),
        src(&[(0, "d"), (1, "f")]),
    ]);
    for w in r.windows(2) {
        assert!(w[0].1 <= w[1].1);
    }
    assert_eq!(r, ranked(&[("d", 1), ("a", 1), ("f", 1), ("e", 2), ("c", 2), ("b", 3)]));
}

#[test]
fn reranking_keeps_order() {
    let r = aggregate(&vec![src(&[(0, "p"), (1, "q"), (2, "s")]), src(&[(0, "q"), (1, "t")]), src(&[(0, "u")])]);
    let again: Vec<(usize, String)> = r.iter().map(|(t, s)| (*s, t.clone())).collect();
    let r2 = aggregate(&vec![again]);
    assert_eq!(r2, r);
}

#[test]
fn ties_keep_first_seen_order() {
    let r = aggregate(&vec![src(&[(1, "m"), (1, "n")]), src(&[(1, "k")])]);
    assert_eq!(r, ranked(&[("m", 1), ("n", 1), ("k", 1)]));
}

#[test]
fn report_shows_at_most_ten() {
    let items: Vec<(String, usize)> = (0..12).map(|i| (format!("w{}", i), i)).collect();
    let lines = report("many", &items);
    assert_eq!(lines.len(), 11);
    assert_eq!(lines[0], "Synonyms for many");
    assert_eq!(lines[10], "- w9");
}

#[test]
fn report_shows_all_when_fewer() {
    let lines = report("few", &ranked(&[("a", 0), ("b", 1), ("c", 2)]));
    assert_eq!(lines.len(), 4);
    assert_eq!(lines[3], "- c");
}

#[test]
fn positions_fit_detects_overflow() {
    assert!(positions_fit(&vec![src(&[(usize::MAX, "a")])]));
    assert!(!positions_fit(&vec![src(&[(usize::MAX, "a")]), src(&[(1, "b")])]));
    assert!(positions_fit(&vec![]));
}

#[test]
fn extract_follows_descendant_and_child_links() {
    let nodes = vec![
        element(None, "div", None, Some("syn-list  other"), ""),
        element(Some(0), "section", None, None, ""),
        element(Some(1), "ul", None, Some("mw-list"), ""),
        element(Some(2), "li", None, None, " Happy "),
        element(Some(3), "a", None, None, " Happy "),
        element(Some(2), "li", None, None, "x"),
        element(Some(5), "span", None, None, "x"),
        element(Some(6), "a", None, None, "Nested"),
        element(None, "ul", None, Some("mw-list"), ""),
        element(Some(8), "li", None, None, ""),
        element(Some(9), "a", None, None, "Outside"),
    ];
    let r = extract(&nodes, &Source::MerriamWebster.path());
    assert_eq!(r, src(&[(0, "happy")]));
}

#[test]
fn extract_by_id_then_name() {
    let nodes = vec![
        element(None, "div", Some("meanings"), None, ""),
        element(Some(0), "ul", None, None, ""),
        element(Some(1), "li", None, None, "Glad"),
        element(Some(1), "li", None, None, "  CHEERFUL"),
        element(None, "li", None, None, "stray"),
    ];
    let r = extract(&nodes, &Source::Thesaurus.path());
    assert_eq!(r, src(&[(0, "glad"), (1, "cheerful")]));
}

#[test]
fn extract_with_no_match_is_empty() {
    let nodes = vec![element(None, "div", None, Some("synonym-linkx"), "no")];
    assert!(extract(&nodes, &Source::YourDictionary.path()).is_empty());
    let empty_path: Vec<Step> = Vec::new();
    assert!(extract(&nodes, &empty_path).is_empty());
}

#[test]
fn extract_keeps_duplicates() {
    let nodes = vec![
        element(None, "a", None, Some("synonym-link"), "Same"),
        element(None, "a", None, Some("big synonym-link"), "same "),
    ];
    let path = vec![Step { link: Link::Descendant, test: NodeTest::Class("synonym-link".to_string()) }];
    assert_eq!(extract(&nodes, &path), src(&[(0, "same"), (1, "same")]));
}

#[test]
fn synonyms_from_markup() {
    let html = "<html><body><div class=\"syn-list\"><ul class=\"mw-list\">\
                <li><a href=\"/a\"> Glad </a></li><li><a>CONTENT</a></li></ul></div></body></html>";
    assert_eq!(Source::MerriamWebster.synonyms(html), src(&[(0, "glad"), (1, "content")]));
    let html = "<div id=\"meanings\"><ul><li>Joyful</li><li> merry</li></ul></div>";
    assert_eq!(Source::Thesaurus.synonyms(html), src(&[(0, "joyful"), (1, "merry")]));
    let html = "<p><a class=\"synonym-link x\">Upbeat</a><a class=\"other\">no</a></p>";
    assert_eq!(Source::YourDictionary.synonyms(html), src(&[(0, "upbeat")]));
}

#[test]
fn source_urls() {
    assert_eq!(Source::Thesaurus.url("happy"), "https://www.thesaurus.com/browse/happy");
    assert_eq!(Source::YourDictionary.url("happy"), "https://thesaurus.yourdictionary.com/happy");
    assert_eq!(Source::MerriamWebster.url("happy"), "https://www.merriam-webster.com/thesaurus/happy");
    assert_eq!(Source::all(), vec![Source::Thesaurus, Source::MerriamWebster, Source::YourDictionary]);
}

#[test]
fn fail_fast_drops_everything_on_one_failure() {
    let results = vec![Some(src(&[(0, "a")])), None, Some(src(&[(0, "b")]))];
    assert_eq!(gather(FailurePolicy::FailFast, results), None);
    let results = vec![Some(src(&[(0, "a")])), Some(src(&[]))];
    assert_eq!(gather(FailurePolicy::FailFast, results), Some(vec![src(&[(0, "a")]), src(&[])]));
}

#[test]
fn best_effort_keeps_what_answered() {
    let results = vec![Some(src(&[(0, "a")])), None, Some(src(&[(0, "b")]))];
    assert_eq!(gather(FailurePolicy::BestEffort, results), Some(vec![src(&[(0, "a")]), src(&[(0, "b")])]));
}

#[test]
fn sorted_distinct_entries_rank_in_their_own_order() {
    let r = aggregate(&vec![src(&[]), src(&[]), src(&[(0, "b"), (1, "a"), (1, "c"), (4, "d")])]);
    assert_eq!(r, ranked(&[("b", 0), ("a", 1), ("c", 1), ("d", 4)]));
}

#[test]
fn reranking_over_three_sources_keeps_order() {
    let r = aggregate(&vec![src(&[(0, "p"), (1, "q")]), src(&[(0, "q"), (1, "t"), (2, "p")]), src(&[(0, "u")])]);
    let again: Vec<(usize, String)> = r.iter().map(|(t, s)| (*s, t.clone())).collect();
    assert_eq!(aggregate(&vec![again, src(&[]), src(&[])]), r);
}
