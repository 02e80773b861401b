//! The list repository: the raw task lines, the two filter vocabularies
//! derived from them, and the modified flag that tracks unwritten edits.
//!
//! The vocabularies are the deduplicated, lexicographically ordered unions
//! of the context and tag tokens of every task, rebuilt from scratch on
//! every load and never incrementally patched.
use vstd::prelude::*;

use crate::todo::item::{is_space, is_space_char, parse_line, views_of, ParsedLine};

verus! {

/// Whether a line carries the textual completion marker that the toggle
/// operation recognizes: the exact prefix `x` followed by a space.
pub open spec fn is_marked_line(s: Seq<char>) -> bool {
    s.len() >= 2 && s[0] == 'x' && s[1] == ' '
}

/// `s` without its leading run of whitespace characters.
pub open spec fn skip_spaces(s: Seq<char>) -> Seq<char>
    decreases s.len(),
{
    if s.len() > 0 && is_space_char(s[0]) {
        skip_spaces(s.drop_first())
    } else {
        s
    }
}

/// `s` without its leading run of non-whitespace characters.
pub open spec fn skip_token(s: Seq<char>) -> Seq<char>
    decreases s.len(),
{
    if s.len() > 0 && !is_space_char(s[0]) {
        skip_token(s.drop_first())
    } else {
        s
    }
}

/// A marked line with the marker and the date token that follows it
/// stripped: the `x`, the whitespace after it, one token (the completion
/// date), and the whitespace after that. A line whose marker is not
/// followed by a date token degrades to whatever remains, rather than
/// failing.
pub open spec fn unmark_line(s: Seq<char>) -> Seq<char> {
    if s.len() == 0 {
        s
    } else {
        skip_spaces(skip_token(skip_spaces(s.drop_first())))
    }
}

/// An unmarked line with the completion marker and completion date
/// prepended: `x <today> <line>`.
pub open spec fn mark_line(s: Seq<char>, today: Seq<char>) -> Seq<char> {
    seq!['x', ' '] + today + seq![' '] + s
}

/// Flip a line between its unmarked and `x <today> `-prefixed forms.
pub open spec fn toggle_line(s: Seq<char>, today: Seq<char>) -> Seq<char> {
    if is_marked_line(s) {
        unmark_line(s)
    } else {
        mark_line(s, today)
    }
}

/// Skipping a leading token passes over any prefix of non-space
/// characters.
proof fn lemma_skip_token_through(d: Seq<char>, rest: Seq<char>)
    requires
        forall|k: int| 0 <= k < d.len() ==> !is_space_char(#[trigger] d[k]),
    ensures
        skip_token(d + rest) == skip_token(rest),
    decreases d.len(),
{
    if d.len() == 0 {
        assert(d + rest =~= rest);
    } else {
        assert((d + rest)[0] == d[0]);
        assert((d + rest).drop_first() =~= d.drop_first() + rest);
        lemma_skip_token_through(d.drop_first(), rest);
    }
}

/// Marking a line and unmarking it again restores the line exactly,
/// provided the date stamp is a nonempty token without whitespace and the
/// line does not itself begin with whitespace. This is the law behind
/// flipping a task's completion twice.
pub proof fn lemma_mark_unmark_round_trip(line: Seq<char>, d: Seq<char>)
    requires
        d.len() > 0,
        forall|k: int| 0 <= k < d.len() ==> !is_space_char(#[trigger] d[k]),
        line.len() == 0 || !is_space_char(line[0]),
    ensures
        is_marked_line(mark_line(line, d)),
        unmark_line(mark_line(line, d)) == line,
{
    let m = mark_line(line, d);
    assert(m[0] == 'x');
    assert(m[1] == ' ');
    let after_x = m.drop_first();
    assert(after_x =~= seq![' '] + d + seq![' '] + line);
    // The single space after the marker is skipped.
    assert(after_x[0] == ' ');
    assert(after_x.drop_first() =~= d + (seq![' '] + line));
    let after_marker_space = d + (seq![' '] + line);
    assert(after_marker_space[0] == d[0]);
    assert(skip_spaces(after_x) == skip_spaces(after_marker_space));
    assert(skip_spaces(after_marker_space) == after_marker_space);
    // The date token is skipped.
    lemma_skip_token_through(d, seq![' '] + line);
    assert(skip_token(after_marker_space) == seq![' '] + line);
    // The single space after the date is skipped.
    let after_date = seq![' '] + line;
    assert(after_date[0] == ' ');
    assert(after_date.drop_first() =~= line);
    assert(skip_spaces(after_date) == skip_spaces(line));
    assert(skip_spaces(line) == line);
}

/// Toggling completion twice restores the line: an unmarked line gains the
/// marker and then loses it again, whatever dates the two toggles used.
pub proof fn lemma_toggle_round_trip(line: Seq<char>, d1: Seq<char>, d2: Seq<char>)
    requires
        !is_marked_line(line),
        d1.len() > 0,
        forall|k: int| 0 <= k < d1.len() ==> !is_space_char(#[trigger] d1[k]),
        line.len() == 0 || !is_space_char(line[0]),
    ensures
        toggle_line(toggle_line(line, d1), d2) == line,
{
    lemma_mark_unmark_round_trip(line, d1);
}

/// Strict lexicographic order on character sequences, by Unicode scalar
/// value. On UTF-8 text this agrees with byte order.
pub open spec fn lex_lt(a: Seq<char>, b: Seq<char>) -> bool
    decreases a.len(),
{
    if b.len() == 0 {
        false
    } else if a.len() == 0 {
        true
    } else if (a[0] as u32) < (b[0] as u32) {
        true
    } else if (b[0] as u32) < (a[0] as u32) {
        false
    } else {
        lex_lt(a.drop_first(), b.drop_first())
    }
}

/// Whether the sequences are in strictly increasing lexicographic order
/// (which also means no duplicates).
pub open spec fn strictly_sorted(s: Seq<Seq<char>>) -> bool {
    forall|i: int, j: int| 0 <= i < j < s.len() ==> lex_lt(#[trigger] s[i], #[trigger] s[j])
}

/// Whether task `j`'s parsed line carries the context token `t`.
pub open spec fn task_has_context(tasks: Seq<String>, j: int, t: Seq<char>) -> bool {
    parse_line(tasks[j]@, j).contexts.contains(t)
}

/// Whether task `j`'s parsed line carries the tag token `t`.
pub open spec fn task_has_tag(tasks: Seq<String>, j: int, t: Seq<char>) -> bool {
    parse_line(tasks[j]@, j).tags.contains(t)
}

/// The union, over the first `n` tasks, of the context tokens their parsed
/// lines carry.
pub open spec fn contexts_of_tasks(tasks: Seq<String>, n: int, t: Seq<char>) -> bool {
    exists|j: int| 0 <= j < n && #[trigger] task_has_context(tasks, j, t)
}

/// The union, over the first `n` tasks, of the tag tokens their parsed
/// lines carry.
pub open spec fn tags_of_tasks(tasks: Seq<String>, n: int, t: Seq<char>) -> bool {
    exists|j: int| 0 <= j < n && #[trigger] task_has_tag(tasks, j, t)
}

/// Membership in one more element of a sequence's prefix.
proof fn lemma_take_contains_succ<T>(s: Seq<T>, k: int, t: T)
    requires
        0 <= k < s.len(),
    ensures
        s.take(k + 1).contains(t) <==> s.take(k).contains(t) || t == s[k],
{
    s.lemma_take_succ_push(k);
    if s.take(k + 1).contains(t) {
        let w = s.take(k + 1).lemma_contains_to_index(t);
        if w < k {
            assert(s.take(k)[w] == t);
        }
    }
    if s.take(k).contains(t) {
        let w = s.take(k).lemma_contains_to_index(t);
        assert(s.take(k + 1)[w] == t);
    }
    if t == s[k] {
        assert(s.take(k + 1)[k] == t);
    }
}

/// Equal first characters, as a consequence of equal scalar values.
proof fn lemma_char_eq(a: char, b: char)
    requires
        (a as u32) == (b as u32),
    ensures
        a == b,
{
    vstd::utf8::char_u32_cast(a, a as u32);
    vstd::utf8::char_u32_cast(b, b as u32);
}

/// Lexicographic order is a strict total order: for any two sequences,
/// exactly one of `a < b`, `a == b`, `b < a` holds.
pub proof fn lemma_lex_trichotomy(a: Seq<char>, b: Seq<char>)
    ensures
        lex_lt(a, b) || lex_lt(b, a) || a == b,
        lex_lt(a, b) ==> !lex_lt(b, a) && a != b,
        lex_lt(b, a) ==> !lex_lt(a, b) && a != b,
    decreases a.len(),
{
    if b.len() == 0 || a.len() == 0 {
        if a.len() == 0 && b.len() == 0 {
            assert(a =~= b);
        }
    } else if (a[0] as u32) < (b[0] as u32) {
    } else if (b[0] as u32) < (a[0] as u32) {
    } else {
        lemma_char_eq(a[0], b[0]);
        lemma_lex_trichotomy(a.drop_first(), b.drop_first());
        if a.drop_first() == b.drop_first() {
            assert(a =~= seq![a[0]] + a.drop_first());
            assert(b =~= seq![b[0]] + b.drop_first());
        }
    }
}

/// Lexicographic order is transitive.
pub proof fn lemma_lex_transitive(a: Seq<char>, b: Seq<char>, c: Seq<char>)
    requires
        lex_lt(a, b),
        lex_lt(b, c),
    ensures
        lex_lt(a, c),
    decreases a.len(),
{
    if c.len() == 0 {
    } else if a.len() == 0 {
    } else {
        if b.len() == 0 {
        } else {
            if (a[0] as u32) < (b[0] as u32) {
                if (b[0] as u32) < (c[0] as u32) {
                } else {
                    lemma_char_eq(b[0], c[0]);
                }
            } else {
                lemma_char_eq(a[0], b[0]);
                if (b[0] as u32) < (c[0] as u32) {
                } else {
                    lemma_char_eq(b[0], c[0]);
                    lemma_lex_transitive(a.drop_first(), b.drop_first(), c.drop_first());
                }
            }
        }
    }
}

/// Compare two string slices lexicographically.
pub fn str_lt(a: &str, b: &str) -> (r: bool)
    ensures
        r == lex_lt(a@, b@),
{
    let na: usize = a.unicode_len();
    let nb: usize = b.unicode_len();
    let mut i: usize = 0;
    proof {
        assert(a@.skip(0) =~= a@);
        assert(b@.skip(0) =~= b@);
    }
    loop
        invariant
            na == a@.len(),
            nb == b@.len(),
            0 <= i <= na,
            0 <= i <= nb,
            lex_lt(a@, b@) == lex_lt(a@.skip(i as int), b@.skip(i as int)),
        ensures
            lex_lt(a@, b@) == ({
                if i < na && i < nb {
                    (a@[i as int] as u32) < (b@[i as int] as u32)
                } else {
                    i == na && i < nb
                }
            }),
        decreases na - i,
    {
        if i == na || i == nb {
            proof {
                if i == na && i < nb {
                    assert(a@.skip(i as int).len() == 0);
                    assert(b@.skip(i as int).len() > 0);
                } else if i == nb {
                    assert(b@.skip(i as int).len() == 0);
                }
            }
            break;
        }
        let ca = a.get_char(i);
        let cb = b.get_char(i);
        proof {
            assert(a@.skip(i as int)[0] == a@[i as int]);
            assert(b@.skip(i as int)[0] == b@[i as int]);
        }
        if (ca as u32) < (cb as u32) {
            break;
        }
        if (cb as u32) < (ca as u32) {
            break;
        }
        proof {
            lemma_char_eq(ca, cb);
            assert(a@.skip(i as int).drop_first() =~= a@.skip(i as int + 1));
            assert(b@.skip(i as int).drop_first() =~= b@.skip(i as int + 1));
        }
        i += 1;
    }
    if i < na && i < nb {
        let ca = a.get_char(i);
        let cb = b.get_char(i);
        (ca as u32) < (cb as u32)
    } else {
        i == na && i < nb
    }
}

/// Insert `s` into a strictly sorted vector, keeping it sorted and
/// duplicate-free: a no-op when `s` is already present.
pub fn insert_sorted(v: &mut Vec<String>, s: &String)
    requires
        strictly_sorted(views_of(old(v)@)),
    ensures
        strictly_sorted(views_of(final(v)@)),
        forall|t: Seq<char>|
            views_of(final(v)@).contains(t) <==> views_of(old(v)@).contains(t) || t == s@,
{
    let n: usize = v.len();
    let mut i: usize = 0;
    loop
        invariant
            n == v@.len(),
            0 <= i <= n,
            strictly_sorted(views_of(v@)),
            v@.len() == views_of(v@).len(),
            forall|k: int| 0 <= k < i ==> lex_lt(#[trigger] views_of(v@)[k], s@),
        ensures
            v@.len() == n,
            0 <= i <= n,
            forall|k: int| 0 <= k < i ==> lex_lt(#[trigger] views_of(v@)[k], s@),
            i < n ==> !lex_lt(views_of(v@)[i as int], s@),
        decreases n - i,
    {
        if i == n {
            break;
        }
        if !str_lt(v[i].as_str(), s.as_str()) {
            break;
        }
        i += 1;
    }
    if i < n && !str_lt(s.as_str(), v[i].as_str()) {
        proof {
            lemma_lex_trichotomy(s@, views_of(v@)[i as int]);
        }
        // Already present: views_of(v@)[i] == s@.
        assert(views_of(v@).contains(s@));
        return ;
    }
    let ghost oldv = views_of(v@);
    let ghost oldseq = v@;
    v.insert(i, s.clone());
    proof {
        oldseq.insert_ensures(i as int, *s);
        let newv = views_of(v@);
        assert(newv.len() == oldv.len() + 1);
        assert forall|p: int| 0 <= p < i as int implies #[trigger] newv[p] == oldv[p] by {
            assert(v@[p] == oldseq[p]);
        }
        assert(newv[i as int] == s@);
        assert forall|q: int| (i as int) < q < newv.len() implies #[trigger] newv[q] == oldv[q - 1]
            by {
            assert(oldseq.insert(i as int, *s)[q - 1 + 1] == oldseq[q - 1]);
            assert(v@[q] == oldseq[q - 1]);
        }
        // Strictly sorted: s@ sits between the elements below and above i.
        assert forall|p: int, q: int| 0 <= p < q < newv.len() implies lex_lt(
            #[trigger] newv[p],
            #[trigger] newv[q],
        ) by {
            if q < i as int {
            } else if p < i as int && q == i as int {
                assert(lex_lt(oldv[p], s@));
            } else if p < i as int && q > i as int {
                assert(lex_lt(oldv[p], s@));
                assert(lex_lt(s@, oldv[i as int]));
                if q - 1 == i as int {
                    lemma_lex_transitive(oldv[p], s@, oldv[q - 1]);
                } else {
                    assert(lex_lt(oldv[i as int], oldv[q - 1]));
                    lemma_lex_transitive(s@, oldv[i as int], oldv[q - 1]);
                    lemma_lex_transitive(oldv[p], s@, oldv[q - 1]);
                }
            } else if p == i as int {
                assert(lex_lt(s@, oldv[i as int]));
                if q - 1 > i as int {
                    lemma_lex_transitive(s@, oldv[i as int], oldv[q - 1]);
                }
            } else {
            }
        }
        // Membership: exactly the old elements plus s@.
        assert forall|t: Seq<char>| newv.contains(t) implies oldv.contains(t) || t == s@ by {
            let w = newv.lemma_contains_to_index(t);
            if w < i as int {
                assert(oldv[w] == t);
            } else if w > i as int {
                assert(oldv[w - 1] == t);
            }
        }
        assert forall|t: Seq<char>| oldv.contains(t) || t == s@ implies newv.contains(t) by {
            if t == s@ {
                assert(newv[i as int] == t);
            } else {
                let w = oldv.lemma_contains_to_index(t);
                if w < i as int {
                    assert(newv[w] == t);
                } else {
                    assert(newv[w + 1] == t);
                }
            }
        }
    }
}

/// Relies on chrono's `Utc::today` and its `%Y-%m-%d` formatting for the
/// current date. The result depends on the system clock, so nothing is
/// promised of it.
#[verifier::external_body]
fn today_string() -> String {
    chrono::Utc::today().format("%Y-%m-%d").to_string()
}

/// Flip a line between its unmarked and `x <today> `-prefixed forms, as
/// [`toggle_line`] describes.
pub fn toggle_line_text(line: &str, today: &str) -> (r: String)
    ensures
        r@ == toggle_line(line@, today@),
{
    let n: usize = line.unicode_len();
    if n >= 2 && line.get_char(0) == 'x' && line.get_char(1) == ' ' {
        // Skip the whitespace after the marker.
        let mut i: usize = 1;
        loop
            invariant
                n == line@.len(),
                1 <= i <= n,
                skip_spaces(line@.skip(1)) == skip_spaces(line@.skip(i as int)),
            ensures
                1 <= i <= n,
                skip_spaces(line@.skip(1)) == line@.skip(i as int),
            decreases n - i,
        {
            if i == n {
                proof {
                    assert(line@.skip(i as int).len() == 0);
                }
                break;
            }
            let c = line.get_char(i);
            proof {
                assert(line@.skip(i as int)[0] == line@[i as int]);
            }
            if !is_space(c) {
                break;
            }
            proof {
                assert(line@.skip(i as int).drop_first() =~= line@.skip(i as int + 1));
            }
            i += 1;
        }
        let ghost s1 = line@.skip(i as int);
        // Skip the completion date token.
        let mut j: usize = i;
        loop
            invariant
                n == line@.len(),
                i <= j <= n,
                i >= 1,
                skip_token(s1) == skip_token(line@.skip(j as int)),
            ensures
                i <= j <= n,
                skip_token(s1) == line@.skip(j as int),
            decreases n - j,
        {
            if j == n {
                proof {
                    assert(line@.skip(j as int).len() == 0);
                }
                break;
            }
            let c = line.get_char(j);
            proof {
                assert(line@.skip(j as int)[0] == line@[j as int]);
            }
            if is_space(c) {
                break;
            }
            proof {
                assert(line@.skip(j as int).drop_first() =~= line@.skip(j as int + 1));
            }
            j += 1;
        }
        let ghost s2 = line@.skip(j as int);
        // Skip the whitespace after the date token.
        let mut k: usize = j;
        loop
            invariant
                n == line@.len(),
                j <= k <= n,
                skip_spaces(s2) == skip_spaces(line@.skip(k as int)),
            ensures
                j <= k <= n,
                skip_spaces(s2) == line@.skip(k as int),
            decreases n - k,
        {
            if k == n {
                proof {
                    assert(line@.skip(k as int).len() == 0);
                }
                break;
            }
            let c = line.get_char(k);
            proof {
                assert(line@.skip(k as int)[0] == line@[k as int]);
            }
            if !is_space(c) {
                break;
            }
            proof {
                assert(line@.skip(k as int).drop_first() =~= line@.skip(k as int + 1));
            }
            k += 1;
        }
        let r = line.substring_char(k, n).to_owned();
        proof {
            assert(line@.subrange(k as int, n as int) =~= line@.skip(k as int));
            assert(line@.skip(1) =~= line@.drop_first());
        }
        r
    } else {
        let mut out = String::from_str("x ");
        out.append(today);
        out.append(" ");
        out.append(line);
        proof {
            reveal_strlit("x ");
            reveal_strlit(" ");
            assert(out@ =~= seq!['x', ' '] + today@ + seq![' '] + line@);
        }
        out
    }
}

/// One loaded task file: the raw lines in file order, the derived filter
/// vocabularies, and whether the in-memory lines differ from the file.
pub struct Rep {
    /// Raw task lines; insertion order is file order is display order.
    pub tasks: Vec<String>,
    /// Deduplicated, lexicographically sorted union of all context tokens.
    pub contexts: Vec<String>,
    /// Deduplicated, lexicographically sorted union of all tag tokens.
    pub tags: Vec<String>,
    /// Whether any task line was mutated since the last load or write.
    pub modified: bool,
}

impl Rep {
    /// Build the repository from the task lines read off the file: derive
    /// both vocabularies by parsing every task once. A fresh repository is
    /// never modified.
    pub fn new(tasks: Vec<String>) -> (r: Rep)
        ensures
            r.tasks == tasks,
            r.modified == false,
            strictly_sorted(views_of(r.contexts@)),
            strictly_sorted(views_of(r.tags@)),
            forall|t: Seq<char>|
                views_of(r.contexts@).contains(t) <==> contexts_of_tasks(
                    tasks@,
                    tasks@.len() as int,
                    t,
                ),
            forall|t: Seq<char>|
                views_of(r.tags@).contains(t) <==> tags_of_tasks(tasks@, tasks@.len() as int, t),
    {
        let mut contexts: Vec<String> = Vec::new();
        let mut tags: Vec<String> = Vec::new();
        proof {
            assert(views_of(contexts@) =~= Seq::<Seq<char>>::empty());
            assert(views_of(tags@) =~= Seq::<Seq<char>>::empty());
        }
        let n: usize = tasks.len();
        let mut i: usize = 0;
        while i < n
            invariant
                n == tasks@.len(),
                0 <= i <= n,
                strictly_sorted(views_of(contexts@)),
                strictly_sorted(views_of(tags@)),
                forall|t: Seq<char>|
                    views_of(contexts@).contains(t) <==> contexts_of_tasks(tasks@, i as int, t),
                forall|t: Seq<char>|
                    views_of(tags@).contains(t) <==> tags_of_tasks(tasks@, i as int, t),
            decreases n - i,
        {
            let p = ParsedLine::new(tasks[i].as_str(), i);
            let ghost pv = parse_line(tasks@[i as int]@, i as int);
            let m: usize = p.contexts.len();
            let mut k: usize = 0;
            while k < m
                invariant
                    n == tasks@.len(),
                    0 <= i < n,
                    m == pv.contexts.len(),
                    0 <= k <= m,
                    p@ == pv,
                    p.contexts@.len() == m,
                    strictly_sorted(views_of(contexts@)),
                    forall|t: Seq<char>|
                        views_of(contexts@).contains(t) <==> contexts_of_tasks(tasks@, i as int, t)
                            || pv.contexts.take(k as int).contains(t),
                decreases m - k,
            {
                insert_sorted(&mut contexts, &p.contexts[k]);
                proof {
                    assert(p.contexts@[k as int]@ == pv.contexts[k as int]);
                    assert forall|t: Seq<char>|
                        pv.contexts.take(k as int + 1).contains(t) <==> (pv.contexts.take(
                            k as int,
                        ).contains(t) || t == pv.contexts[k as int]) by {
                        lemma_take_contains_succ(pv.contexts, k as int, t);
                    }
                }
                k += 1;
            }
            let m2: usize = p.tags.len();
            let mut k2: usize = 0;
            while k2 < m2
                invariant
                    n == tasks@.len(),
                    0 <= i < n,
                    m2 == pv.tags.len(),
                    0 <= k2 <= m2,
                    p@ == pv,
                    p.tags@.len() == m2,
                    strictly_sorted(views_of(tags@)),
                    forall|t: Seq<char>|
                        views_of(tags@).contains(t) <==> tags_of_tasks(tasks@, i as int, t)
                            || pv.tags.take(k2 as int).contains(t),
                decreases m2 - k2,
            {
                insert_sorted(&mut tags, &p.tags[k2]);
                proof {
                    assert(p.tags@[k2 as int]@ == pv.tags[k2 as int]);
                    assert forall|t: Seq<char>|
                        pv.tags.take(k2 as int + 1).contains(t) <==> (pv.tags.take(
                            k2 as int,
                        ).contains(t) || t == pv.tags[k2 as int]) by {
                        lemma_take_contains_succ(pv.tags, k2 as int, t);
                    }
                }
                k2 += 1;
            }
            proof {
                assert(pv.contexts.take(m as int) =~= pv.contexts);
                assert(pv.tags.take(m2 as int) =~= pv.tags);
                assert forall|t: Seq<char>|
                    (contexts_of_tasks(tasks@, i as int, t) || pv.contexts.contains(t))
                        <==> contexts_of_tasks(tasks@, i as int + 1, t) by {
                    if contexts_of_tasks(tasks@, i as int, t) {
                        let j = choose|j: int|
                            0 <= j < i as int && #[trigger] task_has_context(tasks@, j, t);
                        assert(task_has_context(tasks@, j, t));
                    }
                    if pv.contexts.contains(t) {
                        assert(task_has_context(tasks@, i as int, t));
                    }
                    if contexts_of_tasks(tasks@, i as int + 1, t) {
                        let j = choose|j: int|
                            0 <= j < i as int + 1 && #[trigger] task_has_context(tasks@, j, t);
                        if j < i as int {
                            assert(contexts_of_tasks(tasks@, i as int, t));
                        } else {
                            assert(pv.contexts.contains(t));
                        }
                    }
                }
                assert forall|t: Seq<char>|
                    (tags_of_tasks(tasks@, i as int, t) || pv.tags.contains(t)) <==> tags_of_tasks(
                        tasks@,
                        i as int + 1,
                        t,
                    ) by {
                    if tags_of_tasks(tasks@, i as int, t) {
                        let j = choose|j: int|
                            0 <= j < i as int && #[trigger] task_has_tag(tasks@, j, t);
                        assert(task_has_tag(tasks@, j, t));
                    }
                    if pv.tags.contains(t) {
                        assert(task_has_tag(tasks@, i as int, t));
                    }
                    if tags_of_tasks(tasks@, i as int + 1, t) {
                        let j = choose|j: int|
                            0 <= j < i as int + 1 && #[trigger] task_has_tag(tasks@, j, t);
                        if j < i as int {
                            assert(tags_of_tasks(tasks@, i as int, t));
                        } else {
                            assert(pv.tags.contains(t));
                        }
                    }
                }
            }
            i += 1;
        }
        Rep { tasks, contexts, tags, modified: false }
    }

    /// Flip completion of the task at `i`, textually: a marked line loses
    /// its `x` marker and the date token after it, an unmarked line gains
    /// the prefix `x <today> `. The vocabularies are not rebuilt, and the
    /// repository becomes modified.
    pub fn toggle_task(&mut self, i: usize, today: &str)
        requires
            i < old(self).tasks@.len(),
        ensures
            final(self).tasks@.len() == old(self).tasks@.len(),
            final(self).tasks@[i as int]@ == toggle_line(old(self).tasks@[i as int]@, today@),
            forall|j: int|
                0 <= j < old(self).tasks@.len() && j != i as int ==> final(self).tasks@[j] == old(
                    self,
                ).tasks@[j],
            final(self).contexts == old(self).contexts,
            final(self).tags == old(self).tags,
            final(self).modified == true,
    {
        let t = toggle_line_text(self.tasks[i].as_str(), today);
        self.tasks.set(i, t);
        self.modified = true;
    }

    /// [`Self::toggle_task`] with today's date taken from the system
    /// clock. The date that was stamped cannot be promised, only that the
    /// line was toggled with some date.
    pub fn toggle_task_today(&mut self, i: usize)
        requires
            i < old(self).tasks@.len(),
        ensures
            final(self).tasks@.len() == old(self).tasks@.len(),
            exists|d: Seq<char>|
                final(self).tasks@[i as int]@ == toggle_line(old(self).tasks@[i as int]@, d),
            forall|j: int|
                0 <= j < old(self).tasks@.len() && j != i as int ==> final(self).tasks@[j] == old(
                    self,
                ).tasks@[j],
            final(self).contexts == old(self).contexts,
            final(self).tags == old(self).tags,
            final(self).modified == true,
    {
        let d = today_string();
        let ghost task = self.tasks@[i as int];
        self.toggle_task(i, d.as_str());
        proof {
            assert(self.tasks@[i as int]@ == toggle_line(task@, d@));
        }
    }

    /// Clear the modified flag, after a successful write-back. Everything
    /// else is untouched.
    pub fn mark_written(&mut self)
        ensures
            final(self).tasks == old(self).tasks,
            final(self).contexts == old(self).contexts,
            final(self).tags == old(self).tags,
            final(self).modified == false,
    {
        self.modified = false;
    }

    /// Remove the task at `i` outright. The vocabularies are not rebuilt
    /// (they are only derived on load), and the repository becomes
    /// modified.
    pub fn delete_task(&mut self, i: usize)
        requires
            i < old(self).tasks@.len(),
        ensures
            final(self).tasks@ == old(self).tasks@.remove(i as int),
            final(self).contexts == old(self).contexts,
            final(self).tags == old(self).tags,
            final(self).modified == true,
    {
        self.tasks.remove(i);
        self.modified = true;
    }
}

} // verus!
