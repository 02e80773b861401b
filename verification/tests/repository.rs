use todotui::filters::Filters;
use todotui::runner::{dispatch, filtered_tasks, make_view_strings, Action, Step};
use todotui::state::ActiveList;
use todotui::todo::list::{toggle_line_text, Rep};

fn strings(items: &[&str]) -> Vec<String> {
    items.iter().map(|s| s.to_string()).collect()
}

#[test]
fn vocabularies_are_sorted_and_deduplicated() {
    let rep = Rep::new(strings(&[
        "walk dog @park +pets",
        "buy milk @shop +errand",
        "sweep @park +chores",
        "email boss @office +work +errand",
    ]));
    assert_eq!(rep.contexts, strings(&["@office", "@park", "@shop"]));
    assert_eq!(rep.tags, strings(&["+chores", "+errand", "+pets", "+work"]));
    assert!(!rep.modified);
}

#[test]
fn vocabulary_of_empty_repository() {
    let rep = Rep::new(Vec::new());
    assert!(rep.tasks.is_empty());
    assert!(rep.contexts.is_empty());
    assert!(rep.tags.is_empty());
}

#[test]
fn toggle_marks_an_unmarked_line() {
    let mut rep = Rep::new(strings(&["buy milk"]));
    rep.toggle_task(0, "2021-03-04");
    assert_eq!(rep.tasks[0], "x 2021-03-04 buy milk");
    assert!(rep.modified);
}

#[test]
fn toggle_unmarks_a_marked_line() {
    let mut rep = Rep::new(strings(&["x 2021-03-04 buy milk"]));
    rep.toggle_task(0, "2022-01-01");
    assert_eq!(rep.tasks[0], "buy milk");
    assert!(rep.modified);
}

#[test]
fn toggle_twice_round_trips() {
    let mut rep = Rep::new(strings(&["buy milk @shop"]));
    rep.toggle_task(0, "2021-03-04");
    rep.toggle_task(0, "2021-03-05");
    assert_eq!(rep.tasks[0], "buy milk @shop");
}

#[test]
fn unmark_tolerates_marker_without_date() {
    // The marker is followed by one token, which the unmark strips as if
    // it were the completion date; nothing remains, and nothing panics.
    assert_eq!(toggle_line_text("x done", "2021-01-01"), "");
}

#[test]
fn toggle_line_text_marks() {
    assert_eq!(
        toggle_line_text("call mom", "2021-06-07"),
        "x 2021-06-07 call mom"
    );
}

#[test]
fn toggle_today_stamps_some_date() {
    let mut rep = Rep::new(strings(&["call mom"]));
    rep.toggle_task_today(0);
    assert!(rep.tasks[0].starts_with("x "));
    assert!(rep.tasks[0].ends_with(" call mom"));
    // The stamp is a date-shaped token: strip it back off and the original
    // line returns.
    rep.toggle_task_today(0);
    assert_eq!(rep.tasks[0], "call mom");
}

#[test]
fn delete_removes_the_line_and_marks_modified() {
    let mut rep = Rep::new(strings(&["a @x", "b @y", "c @z"]));
    rep.delete_task(1);
    assert_eq!(rep.tasks, strings(&["a @x", "c @z"]));
    assert!(rep.modified);
    // Vocabularies are only derived on load, never patched.
    assert_eq!(rep.contexts, strings(&["@x", "@y", "@z"]));
}

#[test]
fn write_clears_modified_only_on_success() {
    let mut rep = Rep::new(strings(&["a"]));
    rep.toggle_task(0, "2021-01-01");
    assert!(rep.modified);
    // A failed write-back never reaches mark_written: the flag stays set.
    assert!(rep.modified);
    // A successful write-back reports back, and the flag clears.
    rep.mark_written();
    assert!(!rep.modified);
    assert_eq!(rep.tasks[0], "x 2021-01-01 a");
}

#[test]
fn filtered_tasks_keeps_order_and_source_indices() {
    let tasks = strings(&["a @home", "b @work", "c @homework"]);
    let filters = Filters::new(strings(&["@home"]), Vec::new());
    let view = filtered_tasks(&tasks, &filters);
    assert_eq!(view.len(), 2);
    assert_eq!(view[0].raw, "a @home");
    assert_eq!(view[0].index, 0);
    // Substring semantics: the @home filter also matches @homework.
    assert_eq!(view[1].raw, "c @homework");
    assert_eq!(view[1].index, 2);
}

#[test]
fn filtered_tasks_with_no_filters_shows_all() {
    let tasks = strings(&["a", "b"]);
    let filters: Filters<Vec<String>> = Filters::new(Vec::new(), Vec::new());
    let view = filtered_tasks(&tasks, &filters);
    assert_eq!(view.len(), 2);
}

#[test]
fn view_strings_show_active_filters() {
    let vocab = strings(&["@home", "@work"]);
    let active = strings(&["@work"]);
    let rows = make_view_strings(&vocab, &active);
    assert_eq!(rows, strings(&["[ ] home", "[x] work"]));
}

#[test]
fn dispatch_select_on_tasks_toggles_completion() {
    let mut rep = Rep::new(strings(&["buy milk"]));
    let mut filters: Filters<Vec<String>> = Filters::new(Vec::new(), Vec::new());
    let step = dispatch(&mut rep, &mut filters, ActiveList::Tasks, &Action::Select(0));
    assert_eq!(step, Step::Continue);
    assert!(rep.tasks[0].starts_with("x "));
    assert!(rep.modified);
}

#[test]
fn dispatch_select_on_contexts_toggles_filter() {
    let mut rep = Rep::new(strings(&["a @home", "b @work"]));
    let mut filters: Filters<Vec<String>> = Filters::new(Vec::new(), Vec::new());
    let step = dispatch(
        &mut rep,
        &mut filters,
        ActiveList::Contexts,
        &Action::Select(1),
    );
    assert_eq!(step, Step::Continue);
    assert_eq!(filters.contexts, strings(&["@work"]));
    assert!(!rep.modified);
    let step = dispatch(
        &mut rep,
        &mut filters,
        ActiveList::Contexts,
        &Action::Select(1),
    );
    assert_eq!(step, Step::Continue);
    assert!(filters.contexts.is_empty());
}

#[test]
fn dispatch_select_on_tags_toggles_filter() {
    let mut rep = Rep::new(strings(&["a +chores"]));
    let mut filters: Filters<Vec<String>> = Filters::new(Vec::new(), Vec::new());
    dispatch(&mut rep, &mut filters, ActiveList::Tags, &Action::Select(0));
    assert_eq!(filters.tags, strings(&["+chores"]));
}

#[test]
fn dispatch_write_only_when_modified() {
    let mut rep = Rep::new(strings(&["a"]));
    let mut filters: Filters<Vec<String>> = Filters::new(Vec::new(), Vec::new());
    assert_eq!(
        dispatch(&mut rep, &mut filters, ActiveList::Tasks, &Action::Write),
        Step::Continue
    );
    rep.toggle_task(0, "2021-01-01");
    assert_eq!(
        dispatch(&mut rep, &mut filters, ActiveList::Tasks, &Action::Write),
        Step::Write
    );
    // Dispatch itself never clears the flag: only a successful write does.
    assert!(rep.modified);
}

#[test]
fn dispatch_delete_only_on_task_list() {
    let mut rep = Rep::new(strings(&["a", "b"]));
    let mut filters: Filters<Vec<String>> = Filters::new(Vec::new(), Vec::new());
    dispatch(
        &mut rep,
        &mut filters,
        ActiveList::Contexts,
        &Action::Delete(0),
    );
    assert_eq!(rep.tasks.len(), 2);
    dispatch(&mut rep, &mut filters, ActiveList::Tasks, &Action::Delete(0));
    assert_eq!(rep.tasks, strings(&["b"]));
}

#[test]
fn dispatch_reload_and_exit_pass_through() {
    let mut rep = Rep::new(strings(&["a"]));
    let mut filters: Filters<Vec<String>> = Filters::new(Vec::new(), Vec::new());
    assert_eq!(
        dispatch(&mut rep, &mut filters, ActiveList::Tasks, &Action::Reload),
        Step::Reload
    );
    assert_eq!(
        dispatch(&mut rep, &mut filters, ActiveList::Tasks, &Action::Exit),
        Step::Exit
    );
    assert_eq!(rep.tasks, strings(&["a"]));
}
