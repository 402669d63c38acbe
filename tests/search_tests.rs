use skills_index::model::{ContentIndex, ContentIndexEntry};
use skills_index::search::{score_entries, search, SearchOptions, SearchResult};

fn entry(skill: &str, sub: Option<&str>, path: &str, text: &str) -> ContentIndexEntry {
    ContentIndexEntry::new(skill.to_string(), sub.map(|s| s.to_string()), path.to_string(), text.to_string())
}

fn index(entries: Vec<ContentIndexEntry>) -> ContentIndex {
    let mut idx = ContentIndex::new();
    for e in entries {
        idx.insert(e);
    }
    idx
}

fn keys(results: &[SearchResult]) -> Vec<(String, Option<String>, String, u64)> {
    results.iter().map(|r| (r.skill.clone(), r.sub_skill.clone(), r.path.clone(), r.score)).collect()
}

#[test]
fn validate_query_ranks_forms_before_routing() {
    let idx = index(vec![
        entry("routing", None, "SKILL.md", "Always validate routes."),
        entry("forms", None, "SKILL.md", "validate form input. Then validate form input again."),
    ]);
    let results = search(&idx, "validate", &SearchOptions::with_limit(10));
    assert_eq!(results.len(), 2);
    assert_eq!(results[0].skill, "forms");
    assert_eq!(results[0].score, 2);
    assert_eq!(results[1].skill, "routing");
    assert_eq!(results[1].score, 1);
}

#[test]
fn three_occurrences_outrank_one() {
    let idx = index(vec![
        entry("a", None, "SKILL.md", "term"),
        entry("b", None, "SKILL.md", "term term term"),
    ]);
    let results = search(&idx, "term", &SearchOptions::new());
    assert_eq!(results[0].skill, "b");
    assert_eq!(results[0].score, 3);
    assert_eq!(results[1].skill, "a");
}

#[test]
fn search_is_case_insensitive_and_sums_terms() {
    let idx = index(vec![entry("forms", None, "SKILL.md", "Validate FORM input; form state")]);
    let results = search(&idx, "  FORM   validate ", &SearchOptions::new());
    assert_eq!(results.len(), 1);
    assert_eq!(results[0].score, 3);
}

#[test]
fn non_matching_and_empty_queries_return_nothing() {
    let idx = index(vec![entry("forms", None, "SKILL.md", "form input")]);
    assert!(search(&idx, "", &SearchOptions::new()).is_empty());
    assert!(search(&idx, "   ", &SearchOptions::new()).is_empty());
    assert!(search(&idx, "routing", &SearchOptions::new()).is_empty());
}

#[test]
fn ties_break_by_skill_then_main_first_then_path() {
    let idx = index(vec![
        entry("beta", None, "SKILL.md", "x"),
        entry("alpha", Some("sub"), "b.md", "x"),
        entry("alpha", None, "z.md", "x"),
        entry("alpha", Some("sub2"), "a.md", "x"),
        entry("alpha", None, "SKILL.md", "x"),
    ]);
    let results = search(&idx, "x", &SearchOptions::new());
    assert_eq!(
        keys(&results),
        vec![
            ("alpha".to_string(), None, "SKILL.md".to_string(), 1),
            ("alpha".to_string(), None, "z.md".to_string(), 1),
            ("alpha".to_string(), Some("sub2".to_string()), "a.md".to_string(), 1),
            ("alpha".to_string(), Some("sub".to_string()), "b.md".to_string(), 1),
            ("beta".to_string(), None, "SKILL.md".to_string(), 1),
        ]
    );
}

#[test]
fn repeated_search_gives_identical_results() {
    let idx = index(vec![
        entry("a", None, "SKILL.md", "go go"),
        entry("b", None, "SKILL.md", "go"),
        entry("c", None, "SKILL.md", "go go go"),
    ]);
    let first = search(&idx, "go", &SearchOptions::with_limit(2));
    let second = search(&idx, "go", &SearchOptions::with_limit(2));
    assert_eq!(keys(&first), keys(&second));
}

#[test]
fn limit_caps_results_and_keeps_prefix() {
    let mut entries = Vec::new();
    for i in 0..15 {
        let text = "w ".repeat(i + 1);
        entries.push(entry(&format!("s{:02}", i), None, "SKILL.md", &text));
    }
    let idx = index(entries);
    let three = search(&idx, "w", &SearchOptions::with_limit(3));
    let all = search(&idx, "w", &SearchOptions::with_limit(100));
    assert_eq!(three.len(), 3);
    assert_eq!(all.len(), 15);
    assert_eq!(keys(&three), keys(&all[..3]));
    assert_eq!(three[0].skill, "s14");
}

#[test]
fn zero_limit_means_default() {
    assert_eq!(SearchOptions::with_limit(0).limit, 10);
    assert_eq!(SearchOptions::with_limit(4).limit, 4);
    let entries: Vec<ContentIndexEntry> =
        (0..12).map(|i| entry(&format!("s{:02}", i), None, "SKILL.md", "hit")).collect();
    let idx = index(entries);
    assert_eq!(search(&idx, "hit", &SearchOptions { limit: 0 }).len(), 10);
}

#[test]
fn occurrences_do_not_overlap() {
    let texts = vec!["aaaa".to_string(), "abab".to_string()];
    let terms = vec!["aa".to_string(), "b".to_string()];
    assert_eq!(score_entries(&texts, &terms), vec![2, 2]);
}

#[test]
fn non_ascii_text_is_lowercased() {
    let idx = index(vec![entry("i18n", None, "SKILL.md", "ÉCOLE école")]);
    let results = search(&idx, "École", &SearchOptions::new());
    assert_eq!(results[0].score, 2);
}

#[test]
fn rank_on_scores_puts_forms_before_routing() {
    let idx = index(vec![
        entry("routing", None, "SKILL.md", "validate"),
        entry("forms", None, "SKILL.md", "validate form input validate form input"),
    ]);
    let texts: Vec<String> = idx.entries.iter().map(|e| e.content.clone()).collect();
    let scores = score_entries(&texts, &vec!["validate".to_string()]);
    assert_eq!(scores, vec![1, 2]);
    assert_eq!(skills_index::search::rank(&idx, &scores, 10), vec![1, 0]);
    assert_eq!(skills_index::search::rank(&idx, &scores, 1), vec![1]);
}
