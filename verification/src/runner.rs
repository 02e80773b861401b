//! The orchestration decisions: which tasks the active filters let into
//! the view, and what each user action does to the repository and the
//! filter set.
//!
//! The surrounding event loop (terminal, keyboard, file I/O) lives outside
//! the library; it hands actions in and performs the steps handed back.
use vstd::prelude::*;

use crate::filters::{include_spec, toggled, Filters};
use crate::state::ActiveList;
use crate::todo::item::{parse_line, views_of, ParsedLine, ParsedLineView};
use crate::todo::list::{toggle_line, Rep};

verus! {

/// A user action, as the view layer reports it.
#[derive(Debug)]
pub enum Action {
    /// Confirm the selection at this index of the active list.
    Select(usize),
    /// Persist pending modifications.
    Write,
    /// Remove the task at this index outright.
    Delete(usize),
    /// Discard in-memory edits and re-derive the repository from disk.
    Reload,
    /// Terminate the session.
    Exit,
}

/// What the event loop must do after an action was dispatched.
#[derive(Debug, PartialEq, Eq, Structural)]
pub enum Step {
    /// Re-render and wait for the next event.
    Continue,
    /// Write the task lines back to disk, then clear the modified flag.
    Write,
    /// Reload the repository from disk.
    Reload,
    /// End the session.
    Exit,
}

/// The views of the parsed lines in a vector.
pub open spec fn parsed_views(s: Seq<ParsedLine>) -> Seq<ParsedLineView> {
    s.map_values(|p: ParsedLine| p@)
}

/// The filtered task view: the parsed form of exactly those tasks that the
/// active filters let through, in file order, each carrying its source
/// index.
pub open spec fn filtered_views(
    tasks: Seq<String>,
    cf: Seq<Seq<char>>,
    tf: Seq<Seq<char>>,
) -> Seq<ParsedLineView>
    decreases tasks.len(),
{
    if tasks.len() == 0 {
        Seq::empty()
    } else {
        let prev = filtered_views(tasks.drop_last(), cf, tf);
        if include_spec(cf, tf, tasks.last()@) {
            prev.push(parse_line(tasks.last()@, tasks.len() - 1))
        } else {
            prev
        }
    }
}

/// Parse the tasks that the active filters let through, keeping file order
/// and the source index of each.
pub fn filtered_tasks(tasks: &Vec<String>, filters: &Filters<Vec<String>>) -> (r: Vec<ParsedLine>)
    ensures
        parsed_views(r@) == filtered_views(
            tasks@,
            views_of(filters.contexts@),
            views_of(filters.tags@),
        ),
{
    let ghost cf = views_of(filters.contexts@);
    let ghost tf = views_of(filters.tags@);
    let mut r: Vec<ParsedLine> = Vec::new();
    let n: usize = tasks.len();
    let mut i: usize = 0;
    proof {
        assert(parsed_views(r@) =~= Seq::<ParsedLineView>::empty());
        assert(tasks@.take(0) =~= Seq::<String>::empty());
    }
    while i < n
        invariant
            n == tasks@.len(),
            0 <= i <= n,
            cf == views_of(filters.contexts@),
            tf == views_of(filters.tags@),
            parsed_views(r@) == filtered_views(tasks@.take(i as int), cf, tf),
        decreases n - i,
    {
        let ghost prefix = tasks@.take(i as int);
        proof {
            assert(tasks@.take(i as int + 1).drop_last() =~= prefix);
            assert(tasks@.take(i as int + 1).last() == tasks@[i as int]);
        }
        if filters.is_included(tasks[i].as_str()) {
            let p = ParsedLine::new(tasks[i].as_str(), i);
            let ghost rv = parsed_views(r@);
            r.push(p);
            proof {
                assert(parsed_views(r@) =~= rv.push(parse_line(tasks@[i as int]@, i as int)));
            }
        }
        i += 1;
    }
    proof {
        assert(tasks@.take(n as int) =~= tasks@);
    }
    r
}

/// The display form of one filter-vocabulary entry: a checkbox that shows
/// whether the entry is an active filter, then the entry without its
/// leading sigil.
pub open spec fn view_string(entry: Seq<char>, active: bool) -> Seq<char> {
    (if active {
        "[x] "@
    } else {
        "[ ] "@
    }) + (if entry.len() >= 1 {
        entry.drop_first()
    } else {
        entry
    })
}

/// Whether a vector of strings holds one with these characters.
pub fn contains_string(v: &Vec<String>, s: &str) -> (r: bool)
    ensures
        r == views_of(v@).contains(s@),
{
    let n: usize = v.len();
    let mut k: usize = 0;
    while k < n
        invariant
            n == v@.len(),
            views_of(v@).len() == n,
            0 <= k <= n,
            forall|p: int| 0 <= p < k ==> #[trigger] views_of(v@)[p] != s@,
        decreases n - k,
    {
        if crate::todo::item::str_eq(v[k].as_str(), s) {
            assert(views_of(v@)[k as int] == s@);
            return true;
        }
        k += 1;
    }
    proof {
        if views_of(v@).contains(s@) {
            let w = views_of(v@).lemma_contains_to_index(s@);
        }
    }
    false
}

/// Render one filter list for display: each vocabulary entry prefixed with
/// `[x] ` when it is an active filter and `[ ] ` when not, its sigil
/// stripped.
pub fn make_view_strings(input_list: &Vec<String>, active: &Vec<String>) -> (r: Vec<String>)
    ensures
        r@.len() == input_list@.len(),
        forall|i: int|
            0 <= i < r@.len() ==> #[trigger] r@[i]@ == view_string(
                input_list@[i]@,
                views_of(active@).contains(input_list@[i]@),
            ),
{
    let mut r: Vec<String> = Vec::new();
    let n: usize = input_list.len();
    let mut i: usize = 0;
    while i < n
        invariant
            n == input_list@.len(),
            0 <= i <= n,
            r@.len() == i,
            forall|p: int|
                0 <= p < i ==> #[trigger] r@[p]@ == view_string(
                    input_list@[p]@,
                    views_of(active@).contains(input_list@[p]@),
                ),
        decreases n - i,
    {
        let entry = &input_list[i];
        let is_active = contains_string(active, entry.as_str());
        let mut row = if is_active {
            String::from_str("[x] ")
        } else {
            String::from_str("[ ] ")
        };
        let en: usize = entry.as_str().unicode_len();
        if en >= 1 {
            row.append(entry.as_str().substring_char(1, en));
            proof {
                assert(entry@.subrange(1, en as int) =~= entry@.drop_first());
            }
        }
        r.push(row);
        i += 1;
    }
    r
}

/// Apply one user action against the repository and the filter set, and
/// say what the event loop must do next. Confirming a selection toggles a
/// task's completion when the task list is active (stamped with today's
/// date), and toggles filter membership of the chosen vocabulary entry
/// when a filter list is active. Deletion only acts on the task list.
/// Write asks the loop to persist only when there are unwritten edits.
pub fn dispatch(
    rep: &mut Rep,
    filters: &mut Filters<Vec<String>>,
    active: ActiveList,
    action: &Action,
) -> (step: Step)
    requires
        *action matches Action::Select(i) ==> match active {
            ActiveList::Tasks => i < old(rep).tasks@.len(),
            ActiveList::Contexts => i < old(rep).contexts@.len(),
            ActiveList::Tags => i < old(rep).tags@.len(),
        },
        *action matches Action::Delete(i) ==> (active == ActiveList::Tasks ==> i < old(
            rep,
        ).tasks@.len()),
    ensures
        *action matches Action::Select(i) ==> (active == ActiveList::Tasks ==> {
            &&& step == Step::Continue
            &&& *final(filters) == *old(filters)
            &&& final(rep).tasks@.len() == old(rep).tasks@.len()
            &&& exists|d: Seq<char>|
                final(rep).tasks@[i as int]@ == toggle_line(old(rep).tasks@[i as int]@, d)
            &&& forall|j: int|
                0 <= j < old(rep).tasks@.len() && j != i as int ==> final(rep).tasks@[j] == old(
                    rep,
                ).tasks@[j]
            &&& final(rep).contexts == old(rep).contexts
            &&& final(rep).tags == old(rep).tags
            &&& final(rep).modified == true
        }),
        *action matches Action::Select(i) ==> (active == ActiveList::Contexts ==> {
            &&& step == Step::Continue
            &&& *final(rep) == *old(rep)
            &&& final(filters).tags == old(filters).tags
            &&& toggled(
                views_of(old(filters).contexts@),
                views_of(final(filters).contexts@),
                old(rep).contexts@[i as int]@,
            )
        }),
        *action matches Action::Select(i) ==> (active == ActiveList::Tags ==> {
            &&& step == Step::Continue
            &&& *final(rep) == *old(rep)
            &&& final(filters).contexts == old(filters).contexts
            &&& toggled(
                views_of(old(filters).tags@),
                views_of(final(filters).tags@),
                old(rep).tags@[i as int]@,
            )
        }),
        *action matches Action::Write ==> {
            &&& *final(rep) == *old(rep)
            &&& *final(filters) == *old(filters)
            &&& step == if old(rep).modified {
                Step::Write
            } else {
                Step::Continue
            }
        },
        *action matches Action::Delete(i) ==> {
            &&& step == Step::Continue
            &&& *final(filters) == *old(filters)
            &&& (active == ActiveList::Tasks ==> {
                &&& final(rep).tasks@ == old(rep).tasks@.remove(i as int)
                &&& final(rep).contexts == old(rep).contexts
                &&& final(rep).tags == old(rep).tags
                &&& final(rep).modified == true
            })
            &&& (active != ActiveList::Tasks ==> *final(rep) == *old(rep))
        },
        *action matches Action::Reload ==> step == Step::Reload && *final(rep) == *old(rep)
            && *final(filters) == *old(filters),
        *action matches Action::Exit ==> step == Step::Exit && *final(rep) == *old(rep)
            && *final(filters) == *old(filters),
{
    match action {
        Action::Select(i) => {
            match active {
                ActiveList::Tasks => {
                    rep.toggle_task_today(*i);
                },
                ActiveList::Contexts => {
                    filters.toggle(ActiveList::Contexts, &rep.contexts[*i]);
                },
                ActiveList::Tags => {
                    filters.toggle(ActiveList::Tags, &rep.tags[*i]);
                },
            }
            Step::Continue
        },
        Action::Write => {
            if rep.modified {
                Step::Write
            } else {
                Step::Continue
            }
        },
        Action::Delete(i) => {
            if active == ActiveList::Tasks {
                rep.delete_task(*i);
            }
            Step::Continue
        },
        Action::Reload => Step::Reload,
        Action::Exit => Step::Exit,
    }
}

} // verus!
