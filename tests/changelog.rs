use std::collections::HashMap;

use changelog_generator::categorize::{generate_labeled_categories, Category, CategoryMapping, CategoryRule};
use changelog_generator::commit::{linked_issue, parse_issue_number, Commit};
use changelog_generator::fetch::{index_issues, issues_page_url, IssuePager};
use changelog_generator::issue::Issue;
use changelog_generator::render::render;
use changelog_generator::text::{decimal_text, signed_decimal_text, text_less};

fn issue(id: i64, number: i64, title: &str, labels: &[&str]) -> Issue {
    Issue::new(id, number, title.to_string(), labels.iter().map(|l| l.to_string()).collect())
}

fn commit(full_id: &str, summary: &str, message: &str) -> Commit {
    Commit::from_parts(
        full_id,
        Some(summary.to_string()),
        Some("Ada".to_string()),
        0,
        Some(message.to_string()),
    )
    .unwrap()
}

fn issue_map(issues: Vec<Issue>) -> HashMap<i64, Issue> {
    index_issues(issues)
}

fn titles(cats: &[Category]) -> Vec<String> {
    cats.iter().map(|c| c.title.clone()).collect()
}

fn numbers(cat: &Category) -> Vec<i64> {
    cat.issues.iter().map(|i| i.number).collect()
}

#[test]
fn link_is_first_reference() {
    assert_eq!(linked_issue("fixes #42 and #7"), Some(42));
}

#[test]
fn link_absent_without_reference() {
    assert_eq!(linked_issue("no reference here"), None);
    assert_eq!(linked_issue("a lone # sign"), None);
    assert_eq!(linked_issue(""), None);
}

#[test]
fn link_that_overflows_is_absent() {
    assert_eq!(linked_issue("see #99999999999999999999"), None);
    assert_eq!(linked_issue("see #9223372036854775807"), Some(i64::MAX));
}

#[test]
fn parse_issue_number_cases() {
    assert_eq!(parse_issue_number("0"), Some(0));
    assert_eq!(parse_issue_number("0123"), Some(123));
    assert_eq!(parse_issue_number(""), None);
    assert_eq!(parse_issue_number("12a"), None);
    assert_eq!(parse_issue_number("9223372036854775808"), None);
}

#[test]
fn commit_record_from_parts() {
    let c = Commit::from_parts(
        "0123456789abcdef0123456789abcdef01234567",
        None,
        None,
        86_400,
        Some("Fix crash (#15)\n\nsee also #3".to_string()),
    )
    .unwrap();
    assert_eq!(c.id, "0123456");
    assert_eq!(c.summary, "<no summary>");
    assert_eq!(c.author, "<unknown>");
    assert_eq!(c.seconds, 86_400);
    assert_eq!(c.date, "1970-01-02 00:00:00 UTC");
    assert_eq!(c.linked_issue, Some(15));
}

#[test]
fn commit_without_message_has_no_link() {
    let c = Commit::from_parts("abc", Some("s".to_string()), Some("a".to_string()), 0, None).unwrap();
    assert_eq!(c.id, "abc");
    assert_eq!(c.summary, "s");
    assert_eq!(c.author, "a");
    assert_eq!(c.date, "1970-01-01 00:00:00 UTC");
    assert_eq!(c.linked_issue, None);
}

#[test]
fn commit_time_out_of_calendar_range() {
    assert!(Commit::from_parts("abc", None, None, i64::MAX, None).is_none());
}

#[test]
fn labels_are_lower_cased() {
    let i = issue(1, 2, "t", &["BUG", "Enhancement"]);
    assert_eq!(i.lower_case_labels(), vec!["bug".to_string(), "enhancement".to_string()]);
}

#[test]
fn issue_identity_is_internal_id() {
    assert!(issue(5, 1, "a", &[]) == issue(5, 2, "b", &["x"]));
    assert!(issue(5, 1, "a", &[]) != issue(6, 1, "a", &[]));
}

#[test]
fn unmapped_label_goes_to_fallback() {
    let issues = issue_map(vec![issue(10, 1, "Add feature", &["enhancement"])]);
    let commits = vec![commit("aaaaaaaaaa", "feat", "adds #1")];
    let cats = generate_labeled_categories(None, &commits, &issues, &CategoryMapping::standard());
    assert_eq!(titles(&cats), vec!["Issues Closed".to_string()]);
    assert_eq!(numbers(&cats[0]), vec![1]);
}

#[test]
fn filter_excludes_issue_without_label() {
    let issues = issue_map(vec![
        issue(10, 1, "Add feature", &["enhancement"]),
        issue(11, 2, "Crash", &["Bug"]),
    ]);
    let commits = vec![
        commit("aaaaaaaaaa", "feat", "adds #1"),
        commit("bbbbbbbbbb", "fix", "fixes #2"),
    ];
    let mapping = CategoryMapping::standard();
    let cats = generate_labeled_categories(Some("BUG".to_string()), &commits, &issues, &mapping);
    assert_eq!(titles(&cats), vec!["Fixed Bugs 🐛".to_string()]);
    assert_eq!(numbers(&cats[0]), vec![2]);
    let doc = render("v1", "2024-01-01", &commits, &cats);
    assert!(doc.contains("- aaaaaaa - feat by Ada (1970-01-01 00:00:00 UTC)\n"));
    assert!(doc.contains("- bbbbbbb - fix by Ada (1970-01-01 00:00:00 UTC)\n"));
    assert!(!doc.contains("Add feature"));
}

#[test]
fn issue_fans_out_to_each_category_once() {
    let issues = issue_map(vec![issue(10, 4, "Bug with docs", &["bug", "docs"])]);
    let commits = vec![
        commit("aaaaaaaaaa", "one", "#4"),
        commit("bbbbbbbbbb", "two", "again #4"),
    ];
    let cats = generate_labeled_categories(None, &commits, &issues, &CategoryMapping::standard());
    assert_eq!(titles(&cats), vec!["Fixed Bugs 🐛".to_string(), "Issues Closed".to_string()]);
    assert_eq!(numbers(&cats[0]), vec![4]);
    assert_eq!(numbers(&cats[1]), vec![4]);
}

#[test]
fn unknown_or_missing_links_are_skipped() {
    let issues = issue_map(vec![issue(10, 1, "One", &["bug"])]);
    let commits = vec![
        commit("aaaaaaaaaa", "none", "no link"),
        commit("bbbbbbbbbb", "missing", "#99"),
    ];
    let cats = generate_labeled_categories(None, &commits, &issues, &CategoryMapping::standard());
    assert!(cats.is_empty());
}

#[test]
fn issues_without_labels_are_not_listed() {
    let issues = issue_map(vec![issue(10, 1, "One", &[])]);
    let commits = vec![commit("aaaaaaaaaa", "c", "#1")];
    let cats = generate_labeled_categories(None, &commits, &issues, &CategoryMapping::standard());
    assert!(cats.is_empty());
}

#[test]
fn categories_in_title_order_issues_in_id_order() {
    let mapping = CategoryMapping {
        rules: vec![
            CategoryRule { label: "zeta".to_string(), title: "Zeta".to_string() },
            CategoryRule { label: "alpha".to_string(), title: "Alpha".to_string() },
        ],
        fallback: "Other".to_string(),
    };
    let issues = issue_map(vec![
        issue(30, 3, "c", &["zeta"]),
        issue(20, 2, "b", &["alpha", "zeta"]),
        issue(10, 1, "a", &["misc"]),
    ]);
    let commits = vec![
        commit("aaaaaaaaaa", "x", "#3"),
        commit("bbbbbbbbbb", "y", "#2"),
        commit("cccccccccc", "z", "#1"),
    ];
    let cats = generate_labeled_categories(None, &commits, &issues, &mapping);
    assert_eq!(titles(&cats), vec!["Alpha".to_string(), "Other".to_string(), "Zeta".to_string()]);
    assert_eq!(numbers(&cats[0]), vec![2]);
    assert_eq!(numbers(&cats[1]), vec![1]);
    assert_eq!(numbers(&cats[2]), vec![2, 3]);
}

#[test]
fn categorization_is_repeatable() {
    let issues = issue_map(vec![
        issue(1, 1, "a", &["bug", "x"]),
        issue(2, 2, "b", &["y"]),
    ]);
    let commits = vec![commit("aaaaaaaaaa", "x", "#2"), commit("bbbbbbbbbb", "y", "#1")];
    let mapping = CategoryMapping::standard();
    let first = generate_labeled_categories(None, &commits, &issues, &mapping);
    let second = generate_labeled_categories(None, &commits, &issues, &mapping);
    assert_eq!(
        render("v1", "2024-01-01", &commits, &first),
        render("v1", "2024-01-01", &commits, &second)
    );
}

fn page(start: i64, count: i64) -> Vec<Issue> {
    (start..start + count).map(|n| issue(1000 + n, n, "t", &[])).collect()
}

#[test]
fn pagination_stops_on_empty_page() {
    let mut pager = IssuePager::new();
    let pages = vec![page(1, 100), page(101, 100), page(201, 3), Vec::new()];
    let mut asked = Vec::new();
    let mut pages = pages.into_iter();
    while let Some(p) = pager.next_page() {
        asked.push(p);
        pager.receive(pages.next().unwrap());
    }
    assert_eq!(asked, vec![1, 2, 3, 4]);
    let issues = pager.into_issues();
    assert_eq!(issues.len(), 203);
    assert_eq!(issues[&203].number, 203);
}

#[test]
fn later_issue_of_same_number_wins() {
    let issues = index_issues(vec![issue(1, 7, "old", &[]), issue(2, 7, "new", &[])]);
    assert_eq!(issues.len(), 1);
    assert_eq!(issues[&7].title, "new");
}

#[test]
fn page_url_is_exact() {
    assert_eq!(
        issues_page_url("owner/repo", 3),
        "https://api.github.com/repos/owner/repo/issues?state=all&per_page=100&page=3"
    );
}

#[test]
fn render_exact_document() {
    let issues = issue_map(vec![issue(10, 42, "Crash on start", &["bug"])]);
    let commits = vec![commit("0123456789", "Fix crash", "fixes #42")];
    let cats = generate_labeled_categories(None, &commits, &issues, &CategoryMapping::standard());
    let doc = render("v2.0", "2024-05-06", &commits, &cats);
    assert_eq!(
        doc,
        "# v2.0 (2024-05-06)\n\n## Fixed Bugs 🐛\n\n- Crash on start - #42\n\n## Full changelog of commits\n\n- 0123456 - Fix crash by Ada (1970-01-01 00:00:00 UTC)\n"
    );
}

#[test]
fn render_empty_range() {
    assert_eq!(render("HEAD", "2024-01-01", &[], &[]), "# HEAD (2024-01-01)\n\n## Full changelog of commits\n\n");
}

#[test]
fn decimal_text_values() {
    assert_eq!(decimal_text(0), "0");
    assert_eq!(decimal_text(1234567890), "1234567890");
    assert_eq!(signed_decimal_text(-42), "-42");
    assert_eq!(signed_decimal_text(i64::MIN), "-9223372036854775808");
}

#[test]
fn text_order_is_lexicographic() {
    assert!(text_less("Alpha", "Beta"));
    assert!(text_less("Fixed", "Fixed Bugs"));
    assert!(!text_less("Issues Closed", "Fixed Bugs 🐛"));
    assert!(!text_less("same", "same"));
}

#[test]
fn labels_differing_in_case_collapse() {
    let i = issue(1, 2, "t", &["Bug", "bug", "Enhancement"]);
    assert_eq!(i.lower_case_labels(), vec!["bug".to_string(), "enhancement".to_string()]);
}

#[test]
fn only_first_reference_is_linked() {
    let issues = issue_map(vec![issue(1, 42, "a", &["bug"]), issue(2, 7, "b", &["bug"])]);
    let commits = vec![commit("aaaaaaaaaa", "fix", "fixes #42 and #7")];
    assert_eq!(commits[0].linked_issue, Some(42));
    let cats = generate_labeled_categories(None, &commits, &issues, &CategoryMapping::standard());
    assert_eq!(titles(&cats), vec!["Fixed Bugs 🐛".to_string()]);
    assert_eq!(numbers(&cats[0]), vec![42]);
}

#[test]
fn hash_without_digits_is_no_link() {
    let issues = issue_map(vec![issue(1, 42, "a", &["bug"])]);
    let commits = vec![commit("aaaaaaaaaa", "refactor", "Refactor parser, see #abc")];
    assert_eq!(commits[0].linked_issue, None);
    let cats = generate_labeled_categories(None, &commits, &issues, &CategoryMapping::standard());
    assert!(cats.is_empty());
}
