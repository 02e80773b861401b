//! The line parser: one raw todo.txt line in, one structured record out.
//!
//! Parsing is total: every line, however malformed, yields a [`ParsedLine`].
//! A four-state left-to-right scanner walks the whitespace-delimited tokens;
//! each of the header states (completion date, priority, start date) is
//! tried at most once, and a token that fails a state's shape test is
//! retried against the next state. Once the body starts, every remaining
//! token is body text and is never reinterpreted as a header field.
use vstd::prelude::*;

verus! {

/// The characters that delimit tokens: ASCII whitespace as it occurs in
/// task lines.
pub open spec fn is_space_char(c: char) -> bool {
    c == ' ' || c == '\t' || c == '\n' || c == '\r'
}

/// ASCII decimal digits.
pub open spec fn is_digit_char(c: char) -> bool {
    48 <= (c as u32) && (c as u32) <= 57
}

/// The date shape: exactly 10 characters, `-` at positions 4 and 7, digits
/// everywhere else. Calendar validity is deliberately not checked.
pub open spec fn date_seq(s: Seq<char>) -> bool {
    &&& s.len() == 10
    &&& s[4] == '-'
    &&& s[7] == '-'
    &&& forall|i: int| 0 <= i < 10 && i != 4 && i != 7 ==> is_digit_char(#[trigger] s[i])
}

/// The priority shape: exactly `(`, one character, `)`. The letter's range
/// is deliberately unchecked.
pub open spec fn priority_seq(s: Seq<char>) -> bool {
    s.len() == 3 && s[0] == '(' && s[2] == ')'
}

/// `s` with trailing newline and carriage-return characters removed.
pub open spec fn trim_newlines(s: Seq<char>) -> Seq<char>
    decreases s.len(),
{
    if s.len() > 0 && (s.last() == '\n' || s.last() == '\r') {
        trim_newlines(s.drop_last())
    } else {
        s
    }
}

/// Whether the line begins with a completion marker: a lone `x` token at
/// the very start of the line (case-sensitive).
pub open spec fn marked_complete(s: Seq<char>) -> bool {
    s.len() > 0 && s[0] == 'x' && (s.len() == 1 || is_space_char(s[1]))
}

/// Helper for [`tokens_of`]: splits `s` into maximal runs of non-space
/// characters, with `cur` the partial token accumulated so far.
pub open spec fn tokenize_acc(s: Seq<char>, cur: Seq<char>) -> Seq<Seq<char>>
    decreases s.len(),
{
    if s.len() == 0 {
        if cur.len() == 0 {
            Seq::empty()
        } else {
            seq![cur]
        }
    } else if is_space_char(s[0]) {
        if cur.len() == 0 {
            tokenize_acc(s.drop_first(), cur)
        } else {
            seq![cur] + tokenize_acc(s.drop_first(), Seq::empty())
        }
    } else {
        tokenize_acc(s.drop_first(), cur.push(s[0]))
    }
}

/// The whitespace-delimited tokens of `s`, in order. Every token is a
/// nonempty run of non-space characters.
pub open spec fn tokens_of(s: Seq<char>) -> Seq<Seq<char>> {
    tokenize_acc(s, Seq::empty())
}

/// Split `tok` at its first `:`, into the part before and the part after;
/// `None` when `tok` has no `:`.
pub open spec fn split_colon(tok: Seq<char>) -> Option<(Seq<char>, Seq<char>)>
    decreases tok.len(),
{
    if tok.len() == 0 {
        None
    } else if tok[0] == ':' {
        Some((Seq::empty(), tok.drop_first()))
    } else {
        match split_colon(tok.drop_first()) {
            None => None,
            Some((k, v)) => Some((seq![tok[0]] + k, v)),
        }
    }
}

/// Everything the body tokens of a line contribute: the context and tag
/// vocabularies in order of appearance, the recognized extension fields,
/// and the generic extension pairs.
pub struct BodyFacts {
    pub contexts: Seq<Seq<char>>,
    pub tags: Seq<Seq<char>>,
    pub due_date: Option<Seq<char>>,
    pub threshold_date: Option<Seq<char>>,
    pub hidden: bool,
    pub recurrence: Option<Seq<char>>,
    pub extensions: Seq<(Seq<char>, Seq<char>)>,
}

impl BodyFacts {
    /// The facts of an empty body.
    pub open spec fn empty() -> BodyFacts {
        BodyFacts {
            contexts: Seq::empty(),
            tags: Seq::empty(),
            due_date: None,
            threshold_date: None,
            hidden: false,
            recurrence: None,
            extensions: Seq::empty(),
        }
    }
}

/// One body token's contribution to [`BodyFacts`]. A `@` token is a
/// context and a `+` token a tag (the sigil is kept). Any other token is
/// split once at its first `:`; recognized keys are `due` and `t` (value
/// must have the date shape), `h` (value must be exactly `1`) and `rec`;
/// any other `key:value` pair is a generic extension. A later date-keyed
/// token overwrites an earlier one. Tokens without `:` are inert.
pub open spec fn apply_token(f: BodyFacts, tok: Seq<char>) -> BodyFacts {
    if tok.len() == 0 {
        f
    } else if tok[0] == '@' {
        BodyFacts { contexts: f.contexts.push(tok), ..f }
    } else if tok[0] == '+' {
        BodyFacts { tags: f.tags.push(tok), ..f }
    } else {
        match split_colon(tok) {
            None => f,
            Some((key, val)) => {
                if key == "due"@ && date_seq(val) {
                    BodyFacts { due_date: Some(val), ..f }
                } else if key == "t"@ && date_seq(val) {
                    BodyFacts { threshold_date: Some(val), ..f }
                } else if key == "h"@ && val == "1"@ {
                    BodyFacts { hidden: true, ..f }
                } else if key == "rec"@ {
                    BodyFacts { recurrence: Some(val), ..f }
                } else {
                    BodyFacts { extensions: f.extensions.push((key, val)), ..f }
                }
            },
        }
    }
}

/// The facts of a whole body: [`apply_token`] folded over the tokens from
/// left to right.
pub open spec fn classify(toks: Seq<Seq<char>>) -> BodyFacts
    decreases toks.len(),
{
    if toks.len() == 0 {
        BodyFacts::empty()
    } else {
        apply_token(classify(toks.drop_last()), toks.last())
    }
}

/// The tokens joined with single spaces.
pub open spec fn join_spaced(toks: Seq<Seq<char>>) -> Seq<char>
    decreases toks.len(),
{
    if toks.len() == 0 {
        Seq::empty()
    } else if toks.len() == 1 {
        toks[0]
    } else {
        join_spaced(toks.drop_last()) + seq![' '] + toks.last()
    }
}

/// The fully parsed form of one line: the mathematical counterpart of
/// [`ParsedLine`], with every text field a sequence of characters.
pub struct ParsedLineView {
    pub raw: Seq<char>,
    pub index: int,
    pub body: Seq<char>,
    pub complete: bool,
    pub start_date: Option<Seq<char>>,
    pub completion_date: Option<Seq<char>>,
    pub due_date: Option<Seq<char>>,
    pub threshold_date: Option<Seq<char>>,
    pub hidden: bool,
    pub priority: Option<char>,
    pub contexts: Seq<Seq<char>>,
    pub tags: Seq<Seq<char>>,
    pub recurrence: Option<Seq<char>>,
    pub extensions: Seq<(Seq<char>, Seq<char>)>,
}

/// The header fields read off the token list: the completion date (only
/// attempted on a completed line), the priority, the start date, and the
/// number of tokens the header consumed.
pub open spec fn header_consumed(toks: Seq<Seq<char>>, complete: bool) -> int {
    let i1: int = if complete && toks.len() > 0 && date_seq(toks[0]) {
        1
    } else {
        0
    };
    let i2: int = if i1 < toks.len() && priority_seq(toks[i1]) {
        i1 + 1
    } else {
        i1
    };
    if i2 < toks.len() && date_seq(toks[i2]) {
        i2 + 1
    } else {
        i2
    }
}

/// The completion date recorded by the header scan, if any.
pub open spec fn header_completion_date(toks: Seq<Seq<char>>, complete: bool) -> Option<
    Seq<char>,
> {
    if complete && toks.len() > 0 && date_seq(toks[0]) {
        Some(toks[0])
    } else {
        None
    }
}

/// The priority recorded by the header scan, if any.
pub open spec fn header_priority(toks: Seq<Seq<char>>, complete: bool) -> Option<char> {
    let i1: int = if complete && toks.len() > 0 && date_seq(toks[0]) {
        1
    } else {
        0
    };
    if i1 < toks.len() && priority_seq(toks[i1]) {
        Some(toks[i1][1])
    } else {
        None
    }
}

/// The start date recorded by the header scan, if any.
pub open spec fn header_start_date(toks: Seq<Seq<char>>, complete: bool) -> Option<Seq<char>> {
    let i1: int = if complete && toks.len() > 0 && date_seq(toks[0]) {
        1
    } else {
        0
    };
    let i2: int = if i1 < toks.len() && priority_seq(toks[i1]) {
        i1 + 1
    } else {
        i1
    };
    if i2 < toks.len() && date_seq(toks[i2]) {
        Some(toks[i2])
    } else {
        None
    }
}

/// The canonical `(X) ` form in which a consumed priority is re-inserted
/// at the front of the body, so the displayed body still shows it.
pub open spec fn pri_prefix(pri: Option<char>) -> Seq<char> {
    match pri {
        Some(p) => seq!['(', p, ')', ' '],
        None => Seq::empty(),
    }
}

/// The body text shown for a line: the priority, if one was consumed,
/// re-inserted in its canonical `(X) ` form, followed by the body tokens
/// joined with single spaces.
pub open spec fn body_text(pri: Option<char>, body_toks: Seq<Seq<char>>) -> Seq<char> {
    pri_prefix(pri) + join_spaced(body_toks)
}

/// The complete specification of parsing one raw line at position `index`:
/// trailing newlines are stripped, the completion marker is recognized and
/// removed, the header states run over the leading tokens, and everything
/// that remains is body text.
pub open spec fn parse_line(raw: Seq<char>, index: int) -> ParsedLineView {
    let t = trim_newlines(raw);
    let complete = marked_complete(t);
    let rest = if complete {
        t.drop_first()
    } else {
        t
    };
    let toks = tokens_of(rest);
    let body_toks = toks.skip(header_consumed(toks, complete));
    let pri = header_priority(toks, complete);
    let facts = classify(body_toks);
    ParsedLineView {
        raw: t,
        index: index,
        body: body_text(pri, body_toks),
        complete: complete,
        start_date: header_start_date(toks, complete),
        completion_date: header_completion_date(toks, complete),
        due_date: facts.due_date,
        threshold_date: facts.threshold_date,
        hidden: facts.hidden,
        priority: pri,
        contexts: facts.contexts,
        tags: facts.tags,
        recurrence: facts.recurrence,
        extensions: facts.extensions,
    }
}

/// The character sequences of a vector of strings, in order.
pub open spec fn views_of(toks: Seq<String>) -> Seq<Seq<char>> {
    toks.map_values(|t: String| t@)
}

/// The partial token accumulated by the scanner: the characters between
/// the current token's start, if one has started, and position `i`.
pub open spec fn cur_of(start: Option<usize>, i: int, s: Seq<char>) -> Seq<char> {
    match start {
        Some(st) => s.subrange(st as int, i),
        None => Seq::empty(),
    }
}

/// Whether `c` delimits tokens.
pub fn is_space(c: char) -> (r: bool)
    ensures
        r == is_space_char(c),
{
    c == ' ' || c == '\t' || c == '\n' || c == '\r'
}

/// Split `s` into its whitespace-delimited tokens.
pub fn tokenize(s: &str) -> (toks: Vec<String>)
    ensures
        views_of(toks@) == tokens_of(s@),
{
    let n: usize = s.unicode_len();
    let mut toks: Vec<String> = Vec::new();
    let mut start: Option<usize> = None;
    let mut i: usize = 0;
    proof {
        assert(s@.skip(0) =~= s@);
        assert(views_of(toks@) + tokenize_acc(s@.skip(0), Seq::empty()) =~= tokens_of(s@));
    }
    while i < n
        invariant
            n == s@.len(),
            0 <= i <= n,
            match start {
                Some(st) => st < i && forall|k: int|
                    st <= k < i ==> !is_space_char(#[trigger] s@[k]),
                None => true,
            },
            tokens_of(s@) == views_of(toks@) + tokenize_acc(
                s@.skip(i as int),
                cur_of(start, i as int, s@),
            ),
        decreases n - i,
    {
        let ghost rest = s@.skip(i as int);
        let ghost cur = cur_of(start, i as int, s@);
        proof {
            assert(rest[0] == s@[i as int]);
            assert(rest.drop_first() =~= s@.skip(i as int + 1));
        }
        let c = s.get_char(i);
        if is_space(c) {
            match start {
                Some(st) => {
                    proof {
                        assert(cur.len() > 0);
                        assert(tokenize_acc(rest, cur) == seq![cur] + tokenize_acc(
                            rest.drop_first(),
                            Seq::<char>::empty(),
                        ));
                    }
                    let t = s.substring_char(st, i).to_owned();
                    proof {
                        assert(views_of(toks@.push(t)) =~= views_of(toks@).push(cur));
                        assert(views_of(toks@) + (seq![cur] + tokenize_acc(
                            s@.skip(i as int + 1),
                            Seq::<char>::empty(),
                        )) =~= views_of(toks@.push(t)) + tokenize_acc(
                            s@.skip(i as int + 1),
                            Seq::<char>::empty(),
                        ));
                    }
                    toks.push(t);
                    start = None;
                },
                None => {
                    proof {
                        assert(tokenize_acc(rest, cur) == tokenize_acc(
                            rest.drop_first(),
                            Seq::<char>::empty(),
                        ));
                    }
                },
            }
        } else {
            match start {
                Some(st) => {
                    proof {
                        assert(tokenize_acc(rest, cur) == tokenize_acc(
                            rest.drop_first(),
                            cur.push(s@[i as int]),
                        ));
                        assert(cur.push(s@[i as int]) =~= s@.subrange(st as int, i as int + 1));
                    }
                },
                None => {
                    proof {
                        assert(tokenize_acc(rest, cur) == tokenize_acc(
                            rest.drop_first(),
                            cur.push(s@[i as int]),
                        ));
                        assert(cur.push(s@[i as int]) =~= s@.subrange(i as int, i as int + 1));
                    }
                    start = Some(i);
                },
            }
        }
        i += 1;
    }
    let ghost cur = cur_of(start, i as int, s@);
    proof {
        assert(s@.skip(i as int).len() == 0);
        assert(s@.skip(i as int) =~= Seq::<char>::empty());
    }
    match start {
        Some(st) => {
            let t = s.substring_char(st, n).to_owned();
            proof {
                assert(cur.len() > 0);
                assert(tokenize_acc(Seq::<char>::empty(), cur) == seq![cur]);
                assert(views_of(toks@.push(t)) =~= views_of(toks@) + seq![cur]);
            }
            toks.push(t);
        },
        None => {
            proof {
                assert(tokenize_acc(Seq::<char>::empty(), cur) == Seq::<Seq<char>>::empty());
                assert(views_of(toks@) + Seq::<Seq<char>>::empty() =~= views_of(toks@));
            }
        },
    }
    toks
}

/// Check a token against the date shape: 10 characters, `-` at positions
/// 4 and 7, digits elsewhere. `2021-13-99` passes (no calendar check);
/// `2021-1-01` does not.
pub fn is_date(word: &str) -> (r: bool)
    ensures
        r == date_seq(word@),
{
    let n: usize = word.unicode_len();
    if n != 10 {
        return false;
    }
    let mut i: usize = 0;
    while i < 10
        invariant
            0 <= i <= 10,
            word@.len() == 10,
            forall|j: int|
                0 <= j < i ==> if j == 4 || j == 7 {
                    word@[j] == '-'
                } else {
                    is_digit_char(#[trigger] word@[j])
                },
        decreases 10 - i,
    {
        let c = word.get_char(i);
        if i == 4 || i == 7 {
            if c != '-' {
                return false;
            }
        } else {
            let u = c as u32;
            if u < 48 || u > 57 {
                return false;
            }
        }
        i += 1;
    }
    true
}

/// Check a token against the priority shape `(X)`; the letter inside the
/// parentheses is returned unchecked.
pub fn is_priority(word: &str) -> (r: Option<char>)
    ensures
        r == if priority_seq(word@) {
            Some(word@[1])
        } else {
            None::<char>
        },
{
    let n: usize = word.unicode_len();
    if n != 3 {
        return None;
    }
    if word.get_char(0) != '(' {
        return None;
    }
    if word.get_char(2) != ')' {
        return None;
    }
    Some(word.get_char(1))
}

/// The character-sequence form of an optional string.
pub open spec fn view_opt(o: Option<String>) -> Option<Seq<char>> {
    match o {
        Some(s) => Some(s@),
        None => None,
    }
}

/// The character-sequence form of a vector of key/value pairs.
pub open spec fn views_of_pairs(v: Seq<(String, String)>) -> Seq<(Seq<char>, Seq<char>)> {
    v.map_values(|p: (String, String)| (p.0@, p.1@))
}

/// One task line, parsed. Produced fresh on every re-derivation, never
/// mutated in place.
pub struct ParsedLine {
    /// The original line text, trailing newlines stripped.
    pub raw: String,
    /// The line's position in the backing task list.
    pub index: usize,
    /// The human-readable remainder after the header fields are stripped,
    /// with a consumed priority re-inserted in its canonical form.
    pub body: String,
    /// Whether the line began with a completion marker.
    pub complete: bool,
    pub start_date: Option<String>,
    pub completion_date: Option<String>,
    pub due_date: Option<String>,
    pub threshold_date: Option<String>,
    /// The `h:1` extension flag.
    pub hidden: bool,
    /// The letter inside a `(X)` priority token.
    pub priority: Option<char>,
    /// Context tokens (`@...`), duplicates kept in order of appearance.
    pub contexts: Vec<String>,
    /// Tag tokens (`+...`), duplicates kept in order of appearance.
    pub tags: Vec<String>,
    /// The value of a `rec:` extension.
    pub recurrence: Option<String>,
    /// `key:value` tokens with an unrecognized key, in order.
    pub extensions: Vec<(String, String)>,
}

impl View for ParsedLine {
    type V = ParsedLineView;

    open spec fn view(&self) -> ParsedLineView {
        ParsedLineView {
            raw: self.raw@,
            index: self.index as int,
            body: self.body@,
            complete: self.complete,
            start_date: view_opt(self.start_date),
            completion_date: view_opt(self.completion_date),
            due_date: view_opt(self.due_date),
            threshold_date: view_opt(self.threshold_date),
            hidden: self.hidden,
            priority: self.priority,
            contexts: views_of(self.contexts@),
            tags: views_of(self.tags@),
            recurrence: view_opt(self.recurrence),
            extensions: views_of_pairs(self.extensions@),
        }
    }
}

/// [`split_colon`] finds the first `:`: if `s[j]` is the first colon of
/// `s`, the split is the part before `j` and the part after.
proof fn lemma_split_colon_found(s: Seq<char>, j: int)
    requires
        0 <= j < s.len(),
        s[j] == ':',
        forall|k: int| 0 <= k < j ==> s[k] != ':',
    ensures
        split_colon(s) == Some((s.take(j), s.skip(j + 1))),
    decreases j,
{
    if j == 0 {
        assert(s.take(0) =~= Seq::<char>::empty());
        assert(s.drop_first() =~= s.skip(1));
    } else {
        lemma_split_colon_found(s.drop_first(), j - 1);
        assert(seq![s[0]] + s.drop_first().take(j - 1) =~= s.take(j));
        assert(s.drop_first().skip(j) =~= s.skip(j + 1));
    }
}

/// A token without a `:` does not split.
proof fn lemma_split_colon_none(s: Seq<char>)
    requires
        forall|k: int| 0 <= k < s.len() ==> s[k] != ':',
    ensures
        split_colon(s) is None,
    decreases s.len(),
{
    if s.len() > 0 {
        lemma_split_colon_none(s.drop_first());
    }
}

/// Every token the tokenizer yields is nonempty.
proof fn lemma_tokens_nonempty(s: Seq<char>, cur: Seq<char>)
    ensures
        forall|i: int|
            0 <= i < tokenize_acc(s, cur).len() ==> #[trigger] tokenize_acc(s, cur)[i].len() > 0,
    decreases s.len(),
{
    if s.len() == 0 {
        if cur.len() > 0 {
            assert(tokenize_acc(s, cur) == seq![cur]);
            assert(tokenize_acc(s, cur)[0] == cur);
        }
    } else if is_space_char(s[0]) {
        if cur.len() == 0 {
            lemma_tokens_nonempty(s.drop_first(), cur);
            assert(tokenize_acc(s, cur) == tokenize_acc(s.drop_first(), cur));
        } else {
            lemma_tokens_nonempty(s.drop_first(), Seq::empty());
            let rest = tokenize_acc(s.drop_first(), Seq::<char>::empty());
            assert forall|i: int| 0 <= i < tokenize_acc(s, cur).len() implies #[trigger] tokenize_acc(
                s,
                cur,
            )[i].len() > 0 by {
                if i == 0 {
                    assert(tokenize_acc(s, cur)[0] == cur);
                } else {
                    assert(tokenize_acc(s, cur)[i] == rest[i - 1]);
                }
            }
        }
    } else {
        lemma_tokens_nonempty(s.drop_first(), cur.push(s[0]));
        assert(tokenize_acc(s, cur) == tokenize_acc(s.drop_first(), cur.push(s[0])));
    }
}

/// Whether two string slices hold the same characters.
pub fn str_eq(a: &str, b: &str) -> (r: bool)
    ensures
        r == (a@ == b@),
{
    a.to_owned() == b.to_owned()
}

/// Split a body token once at its first `:`, into key and value.
fn split_key_value(tok: &str) -> (r: Option<(String, String)>)
    ensures
        r is Some <==> split_colon(tok@) is Some,
        r matches Some(kv) ==> split_colon(tok@) == Some((kv.0@, kv.1@)),
{
    let n: usize = tok.unicode_len();
    let mut j: usize = 0;
    while j < n
        invariant
            n == tok@.len(),
            0 <= j <= n,
            forall|k: int| 0 <= k < j ==> tok@[k] != ':',
        decreases n - j,
    {
        if tok.get_char(j) == ':' {
            let key = tok.substring_char(0, j).to_owned();
            let val = tok.substring_char(j + 1, n).to_owned();
            proof {
                lemma_split_colon_found(tok@, j as int);
                assert(tok@.subrange(0, j as int) =~= tok@.take(j as int));
                assert(tok@.subrange(j as int + 1, n as int) =~= tok@.skip(j as int + 1));
            }
            return Some((key, val));
        }
        j += 1;
    }
    proof {
        lemma_split_colon_none(tok@);
    }
    None
}

impl ParsedLine {
    /// Parse one raw line at position `index`. Total: every line, however
    /// malformed, yields a record, and malformed header fields degrade
    /// gracefully into body text.
    pub fn new(raw: &str, index: usize) -> (r: ParsedLine)
        ensures
            r@ == parse_line(raw@, index as int),
    {
        // Strip trailing newline and carriage-return characters.
        let total: usize = raw.unicode_len();
        let mut end: usize = total;
        proof {
            assert(raw@.take(total as int) =~= raw@);
        }
        loop
            invariant
                0 <= end <= total,
                total == raw@.len(),
                trim_newlines(raw@) == trim_newlines(raw@.take(end as int)),
            ensures
                0 <= end <= total,
                trim_newlines(raw@) == raw@.take(end as int),
            decreases end,
        {
            if end == 0 {
                proof {
                    assert(raw@.take(0) =~= Seq::<char>::empty());
                }
                break;
            }
            let c = raw.get_char(end - 1);
            if c != '\n' && c != '\r' {
                break;
            }
            proof {
                assert(raw@.take(end as int).drop_last() =~= raw@.take(end as int - 1));
            }
            end = end - 1;
        }
        let trimmed: &str = raw.substring_char(0, end);
        proof {
            assert(raw@.subrange(0, end as int) =~= raw@.take(end as int));
            assert(trimmed@ == trim_newlines(raw@));
        }

        // Recognize and remove the completion marker.
        let complete: bool = end > 0 && trimmed.get_char(0) == 'x' && (end == 1 || is_space(
            trimmed.get_char(1),
        ));
        assert(complete == marked_complete(trimmed@));
        let rest: &str = if complete {
            trimmed.substring_char(1, end)
        } else {
            trimmed
        };
        proof {
            if complete {
                assert(trimmed@.subrange(1, end as int) =~= trimmed@.drop_first());
            }
        }

        let toks = tokenize(rest);
        let ghost tv = tokens_of(rest@);
        proof {
            lemma_tokens_nonempty(rest@, Seq::empty());
        }

        // Header scan: completion date, priority, start date, each tried
        // at most once, a failed shape test leaving the token for the next
        // state.
        let mut idx: usize = 0;
        let mut completion_date: Option<String> = None;
        if complete && toks.len() > 0 && is_date(toks[0].as_str()) {
            completion_date = Some(toks[0].clone());
            idx = 1;
        }
        assert(view_opt(completion_date) == header_completion_date(tv, complete));

        let mut body = String::new();
        let mut priority: Option<char> = None;
        if idx < toks.len() {
            if let Some(p) = is_priority(toks[idx].as_str()) {
                priority = Some(p);
                body.append(toks[idx].as_str());
                body.append(" ");
                proof {
                    reveal_strlit(" ");
                    assert(toks@[idx as int]@ + " "@ =~= seq!['(', p, ')', ' ']);
                }
                idx = idx + 1;
            }
        }
        assert(priority == header_priority(tv, complete));
        assert(body@ == pri_prefix(priority));

        let mut start_date: Option<String> = None;
        if idx < toks.len() && is_date(toks[idx].as_str()) {
            start_date = Some(toks[idx].clone());
            idx = idx + 1;
        }
        assert(view_opt(start_date) == header_start_date(tv, complete));
        assert(idx == header_consumed(tv, complete));
        let ghost body_toks = tv.skip(idx as int);
        let ghost idx0 = idx as int;

        // Single pass over the body tokens: append each to the body text
        // and classify it.
        let mut contexts: Vec<String> = Vec::new();
        let mut tags: Vec<String> = Vec::new();
        let mut due_date: Option<String> = None;
        let mut threshold_date: Option<String> = None;
        let mut hidden: bool = false;
        let mut recurrence: Option<String> = None;
        let mut extensions: Vec<(String, String)> = Vec::new();
        let mut k: usize = idx;
        proof {
            assert(tv.len() == toks@.len());
            assert(tv.subrange(idx0, idx0) =~= Seq::<Seq<char>>::empty());
            assert(body@ =~= pri_prefix(priority) + join_spaced(tv.subrange(idx0, idx0)));
            assert(views_of(contexts@) =~= Seq::<Seq<char>>::empty());
            assert(views_of(tags@) =~= Seq::<Seq<char>>::empty());
            assert(views_of_pairs(extensions@) =~= Seq::<(Seq<char>, Seq<char>)>::empty());
            assert(classify(tv.subrange(idx0, idx0)) == BodyFacts::empty());
        }
        while k < toks.len()
            invariant
                0 <= idx0,
                idx as int == idx0,
                idx0 <= k as int <= tv.len(),
                tv.len() == toks@.len(),
                views_of(toks@) == tv,
                forall|i: int| 0 <= i < tv.len() ==> #[trigger] tv[i].len() > 0,
                body@ == pri_prefix(priority) + join_spaced(tv.subrange(idx0, k as int)),
                classify(tv.subrange(idx0, k as int)) == (BodyFacts {
                    contexts: views_of(contexts@),
                    tags: views_of(tags@),
                    due_date: view_opt(due_date),
                    threshold_date: view_opt(threshold_date),
                    hidden: hidden,
                    recurrence: view_opt(recurrence),
                    extensions: views_of_pairs(extensions@),
                }),
            decreases toks.len() - k,
        {
            let ghost tok = tv[k as int];
            let ghost before = tv.subrange(idx0, k as int);
            proof {
                assert(tv.subrange(idx0, k as int + 1).drop_last() =~= before);
                assert(tv.subrange(idx0, k as int + 1).last() == tok);
            }

            // Append the token verbatim to the body text.
            if k > idx {
                body.append(" ");
            }
            body.append(toks[k].as_str());
            proof {
                reveal_strlit(" ");
                if k == idx {
                    assert(join_spaced(tv.subrange(idx0, k as int + 1)) == tok);
                    assert(body@ =~= pri_prefix(priority) + join_spaced(
                        tv.subrange(idx0, k as int + 1),
                    ));
                } else {
                    assert(join_spaced(tv.subrange(idx0, k as int + 1)) == join_spaced(before)
                        + seq![' '] + tok);
                    assert(body@ =~= pri_prefix(priority) + join_spaced(
                        tv.subrange(idx0, k as int + 1),
                    ));
                }
            }

            // Classify the token.
            let c0 = toks[k].as_str().get_char(0);
            if c0 == '@' {
                contexts.push(toks[k].clone());
                proof {
                    assert(views_of(contexts@) =~= classify(before).contexts.push(tok));
                }
            } else if c0 == '+' {
                tags.push(toks[k].clone());
                proof {
                    assert(views_of(tags@) =~= classify(before).tags.push(tok));
                }
            } else {
                match split_key_value(toks[k].as_str()) {
                    None => {
                    },
                    Some((key, val)) => {
                        if str_eq(key.as_str(), "due") && is_date(val.as_str()) {
                            due_date = Some(val);
                        } else if str_eq(key.as_str(), "t") && is_date(val.as_str()) {
                            threshold_date = Some(val);
                        } else if str_eq(key.as_str(), "h") && str_eq(val.as_str(), "1") {
                            hidden = true;
                        } else if str_eq(key.as_str(), "rec") {
                            recurrence = Some(val);
                        } else {
                            extensions.push((key, val));
                            proof {
                                assert(views_of_pairs(extensions@) =~= classify(
                                    before,
                                ).extensions.push((key@, val@)));
                            }
                        }
                    },
                }
            }
            assert(classify(tv.subrange(idx0, k as int + 1)) == apply_token(classify(before), tok));
            k = k + 1;
        }
        proof {
            assert(tv.subrange(idx0, tv.len() as int) =~= body_toks);
        }

        let r = ParsedLine {
            raw: trimmed.to_owned(),
            index,
            body,
            complete,
            start_date,
            completion_date,
            due_date,
            threshold_date,
            hidden,
            priority,
            contexts,
            tags,
            recurrence,
            extensions,
        };
        proof {
            assert(r@ == parse_line(raw@, index as int));
        }
        r
    }
}

} // verus!
