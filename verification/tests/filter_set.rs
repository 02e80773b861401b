use todotui::filters::{contains_substring, Filters};
use todotui::state::ActiveList;

fn strings(items: &[&str]) -> Vec<String> {
    items.iter().map(|s| s.to_string()).collect()
}

#[test]
fn substring_semantics_includes_homework() {
    let f = Filters::new(strings(&["@home"]), Vec::new());
    assert!(f.is_included("finish @homework tonight"));
}

#[test]
fn empty_filters_include_everything() {
    let f: Filters<Vec<String>> = Filters::new(Vec::new(), Vec::new());
    assert!(f.is_included(""));
    assert!(f.is_included("x 2021-01-01 (A) anything at all"));
    assert!(f.is_included("@ctx +tag due:2021-01-01"));
}

#[test]
fn non_matching_filter_excludes() {
    let f = Filters::new(strings(&["@work"]), Vec::new());
    assert!(!f.is_included("watch tv @home"));
}

#[test]
fn dimensions_are_anded() {
    let f = Filters::new(strings(&["@home"]), strings(&["+chores"]));
    assert!(f.is_included("sweep @home +chores"));
    assert!(!f.is_included("sweep @home +fun"));
    assert!(!f.is_included("sweep @office +chores"));
}

#[test]
fn filters_within_dimension_are_ored() {
    let f = Filters::new(strings(&["@home", "@office"]), Vec::new());
    assert!(f.is_included("call @office"));
    assert!(f.is_included("sweep @home"));
    assert!(!f.is_included("jog @park"));
}

#[test]
fn toggle_inserts_then_removes() {
    let mut f: Filters<Vec<String>> = Filters::new(Vec::new(), Vec::new());
    let entry = "@home".to_string();
    f.toggle(ActiveList::Contexts, &entry);
    assert_eq!(f.contexts, vec!["@home".to_string()]);
    assert!(f.tags.is_empty());
    f.toggle(ActiveList::Contexts, &entry);
    assert!(f.contexts.is_empty());
}

#[test]
fn toggle_tags_leaves_contexts_alone() {
    let mut f = Filters::new(strings(&["@home"]), Vec::new());
    let entry = "+chores".to_string();
    f.toggle(ActiveList::Tags, &entry);
    assert_eq!(f.contexts, vec!["@home".to_string()]);
    assert_eq!(f.tags, vec!["+chores".to_string()]);
}

#[test]
fn get_returns_the_named_dimension() {
    let f = Filters::new(strings(&["@a"]), strings(&["+b"]));
    assert_eq!(f.get(ActiveList::Contexts), &vec!["@a".to_string()]);
    assert_eq!(f.get(ActiveList::Tags), &vec!["+b".to_string()]);
}

#[test]
fn get_mut_borrows_the_named_dimension() {
    let mut f: Filters<Vec<String>> = Filters::new(Vec::new(), Vec::new());
    f.get_mut(ActiveList::Contexts).push("@a".to_string());
    assert_eq!(f.contexts, vec!["@a".to_string()]);
    assert!(f.tags.is_empty());
}

#[test]
fn substring_edges() {
    assert!(contains_substring("abc", ""));
    assert!(contains_substring("abc", "abc"));
    assert!(contains_substring("abc", "bc"));
    assert!(!contains_substring("abc", "abcd"));
    assert!(!contains_substring("", "a"));
    assert!(contains_substring("", ""));
}
