//! The filter set: per filterable list (contexts, tags) the currently
//! active filter strings, and the inclusion predicate they induce over a
//! raw task line.
//!
//! A task is visible when, independently for each dimension, either no
//! filter is active or at least one active filter string occurs as a
//! substring of the raw line. Substring containment, not exact token
//! match, is the deliberate semantics: filtering by `@home` also matches
//! `@homework`.
use vstd::prelude::*;

use crate::state::ActiveList;
use crate::todo::item::views_of;

verus! {

/// Whether `needle` occurs contiguously inside `hay`.
pub open spec fn is_substring(needle: Seq<char>, hay: Seq<char>) -> bool {
    exists|i: int|
        0 <= i <= hay.len() - needle.len() && #[trigger] hay.subrange(
            i,
            i + needle.len(),
        ) == needle
}

/// Whether one dimension's filter set lets `line` through: no filter
/// active, or some active filter a substring of the line.
pub open spec fn dimension_includes(filters: Seq<Seq<char>>, line: Seq<char>) -> bool {
    filters.len() == 0 || exists|k: int|
        0 <= k < filters.len() && is_substring(#[trigger] filters[k], line)
}

/// Whether the whole filter set lets `line` through: both dimensions must
/// agree (AND across dimensions, OR within one).
pub open spec fn include_spec(
    ctx_filters: Seq<Seq<char>>,
    tag_filters: Seq<Seq<char>>,
    line: Seq<char>,
) -> bool {
    dimension_includes(ctx_filters, line) && dimension_includes(tag_filters, line)
}

/// With no active filter on either dimension, every line is included.
pub proof fn lemma_empty_filters_include_all(
    ctx_filters: Seq<Seq<char>>,
    tag_filters: Seq<Seq<char>>,
    line: Seq<char>,
)
    requires
        ctx_filters.len() == 0,
        tag_filters.len() == 0,
    ensures
        include_spec(ctx_filters, tag_filters, line),
{
}

/// Check whether `needle` occurs contiguously inside `hay`.
pub fn contains_substring(hay: &str, needle: &str) -> (r: bool)
    ensures
        r == is_substring(needle@, hay@),
{
    let nh: usize = hay.unicode_len();
    let nn: usize = needle.unicode_len();
    if nn > nh {
        proof {
            if is_substring(needle@, hay@) {
                let w = choose|i: int|
                    0 <= i <= hay@.len() - needle@.len() && #[trigger] hay@.subrange(
                        i,
                        i + needle@.len(),
                    ) == needle@;
            }
        }
        return false;
    }
    let mut i: usize = 0;
    while i <= nh - nn
        invariant
            nh == hay@.len(),
            nn == needle@.len(),
            nn <= nh,
            0 <= i <= nh - nn + 1,
            forall|p: int|
                0 <= p < i ==> #[trigger] hay@.subrange(p, p + needle@.len()) != needle@,
        decreases nh + 1 - nn - i,
    {
        let mut j: usize = 0;
        let mut matched: bool = true;
        while j < nn
            invariant
                nh == hay@.len(),
                nn == needle@.len(),
                0 <= i <= nh - nn,
                0 <= j <= nn,
                matched == (forall|q: int|
                    0 <= q < j ==> hay@[i + q] == #[trigger] needle@[q]),
            decreases nn - j,
        {
            if hay.get_char(i + j) != needle.get_char(j) {
                matched = false;
                j = nn;
            } else {
                j += 1;
            }
        }
        if matched {
            proof {
                assert(hay@.subrange(i as int, i as int + needle@.len()) =~= needle@);
            }
            return true;
        }
        proof {
            if hay@.subrange(i as int, i as int + needle@.len()) == needle@ {
                assert(forall|q: int|
                    0 <= q < needle@.len() ==> hay@[i + q] == #[trigger] needle@[q]);
            }
        }
        i += 1;
    }
    false
}

/// The two sets of active filter strings, one per filterable dimension.
/// The task list itself is not filterable.
pub struct Filters<I> {
    pub contexts: I,
    pub tags: I,
}

impl<I> Filters<I> {
    pub fn new(contexts: I, tags: I) -> (r: Filters<I>)
        ensures
            r.contexts == contexts,
            r.tags == tags,
    {
        Filters { contexts, tags }
    }

    /// The filter set of the named dimension. Only the two filterable
    /// lists have one.
    pub fn get(&self, al: ActiveList) -> (r: &I)
        requires
            al != ActiveList::Tasks,
        ensures
            al == ActiveList::Contexts ==> *r == self.contexts,
            al == ActiveList::Tags ==> *r == self.tags,
    {
        match al {
            ActiveList::Contexts => &self.contexts,
            ActiveList::Tags => &self.tags,
            ActiveList::Tasks => unreached(),
        }
    }

    /// Borrow the filter set of the named dimension. Only the two
    /// filterable lists have one.
    pub fn get_mut(&mut self, al: ActiveList) -> (r: &mut I)
        requires
            al != ActiveList::Tasks,
        ensures
            al == ActiveList::Contexts ==> *r == old(self).contexts && *final(self) == (Filters {
                contexts: *final(r),
                ..*old(self)
            }),
            al == ActiveList::Tags ==> *r == old(self).tags && *final(self) == (Filters {
                tags: *final(r),
                ..*old(self)
            }),
    {
        match al {
            ActiveList::Contexts => &mut self.contexts,
            ActiveList::Tags => &mut self.tags,
            ActiveList::Tasks => unreached(),
        }
    }
}

impl Filters<Vec<String>> {
    /// Whether the active filters let the raw line `item` through.
    pub fn is_included(&self, item: &str) -> (r: bool)
        ensures
            r == include_spec(views_of(self.contexts@), views_of(self.tags@), item@),
    {
        self.include_for_filter(item, ActiveList::Contexts) && self.include_for_filter(
            item,
            ActiveList::Tags,
        )
    }

    /// Whether one dimension's active filters let the raw line through.
    fn include_for_filter(&self, item: &str, active_list: ActiveList) -> (r: bool)
        requires
            active_list != ActiveList::Tasks,
        ensures
            active_list == ActiveList::Contexts ==> r == dimension_includes(
                views_of(self.contexts@),
                item@,
            ),
            active_list == ActiveList::Tags ==> r == dimension_includes(
                views_of(self.tags@),
                item@,
            ),
    {
        let filters = self.get(active_list);
        let n: usize = filters.len();
        if n == 0 {
            return true;
        }
        let ghost fv = views_of(filters@);
        let mut k: usize = 0;
        while k < n
            invariant
                n == filters@.len(),
                fv == views_of(filters@),
                fv.len() == n,
                0 <= k <= n,
                active_list != ActiveList::Tasks,
                active_list == ActiveList::Contexts ==> filters@ == self.contexts@,
                active_list == ActiveList::Tags ==> filters@ == self.tags@,
                forall|p: int| 0 <= p < k ==> !is_substring(#[trigger] fv[p], item@),
            decreases n - k,
        {
            if contains_substring(item, filters[k].as_str()) {
                proof {
                    assert(is_substring(fv[k as int], item@));
                    if active_list == ActiveList::Contexts {
                        assert(views_of(self.contexts@)[k as int] == fv[k as int]);
                        assert(dimension_includes(views_of(self.contexts@), item@));
                    } else {
                        assert(views_of(self.tags@)[k as int] == fv[k as int]);
                        assert(dimension_includes(views_of(self.tags@), item@));
                    }
                }
                return true;
            }
            k += 1;
        }
        false
    }

    /// Toggle membership of `entry` in the named dimension's filter set:
    /// remove it when present, insert it when absent. The other dimension
    /// is untouched.
    pub fn toggle(&mut self, al: ActiveList, entry: &String)
        requires
            al != ActiveList::Tasks,
        ensures
            al == ActiveList::Contexts ==> final(self).tags == old(self).tags && toggled(
                views_of(old(self).contexts@),
                views_of(final(self).contexts@),
                entry@,
            ),
            al == ActiveList::Tags ==> final(self).contexts == old(self).contexts && toggled(
                views_of(old(self).tags@),
                views_of(final(self).tags@),
                entry@,
            ),
    {
        let list = self.get_mut(al);
        toggle_in(list, entry);
    }
}

/// The relation between a filter set before and after one toggle of
/// `entry`: `entry` is a member afterwards exactly when it was not
/// before, and every other string's membership is unchanged.
pub open spec fn toggled(before: Seq<Seq<char>>, after: Seq<Seq<char>>, entry: Seq<char>) -> bool {
    &&& (after.contains(entry) <==> !before.contains(entry))
    &&& forall|t: Seq<char>|
        t != entry ==> (#[trigger] after.contains(t) <==> before.contains(t))
}

/// Membership after a push: the pushed element, plus everything already
/// there.
proof fn lemma_push_contains<T>(s: Seq<T>, x: T, t: T)
    ensures
        s.push(x).contains(t) <==> s.contains(t) || t == x,
{
    if s.push(x).contains(t) {
        let w = s.push(x).lemma_contains_to_index(t);
        if w < s.len() {
            assert(s[w] == t);
        }
    }
    if s.contains(t) {
        let w = s.lemma_contains_to_index(t);
        assert(s.push(x)[w] == t);
    }
    if t == x {
        assert(s.push(x)[s.len() as int] == t);
    }
}

/// Membership in one more element of a sequence's prefix.
proof fn lemma_take_contains_succ<T>(s: Seq<T>, k: int, t: T)
    requires
        0 <= k < s.len(),
    ensures
        s.take(k + 1).contains(t) <==> s.take(k).contains(t) || t == s[k],
{
    s.lemma_take_succ_push(k);
    lemma_push_contains(s.take(k), s[k], t);
}

/// Toggle membership of `entry` in a list of strings: every occurrence is
/// removed when present, and `entry` is appended when absent. The order
/// of the other entries is kept.
fn toggle_in(v: &mut Vec<String>, entry: &String)
    ensures
        toggled(views_of(old(v)@), views_of(final(v)@), entry@),
{
    let ghost vv = views_of(v@);
    let n: usize = v.len();
    let mut out: Vec<String> = Vec::new();
    let mut found: bool = false;
    let mut i: usize = 0;
    proof {
        assert(views_of(out@) =~= Seq::<Seq<char>>::empty());
        assert(vv.take(0) =~= Seq::<Seq<char>>::empty());
    }
    while i < n
        invariant
            n == v@.len(),
            vv == views_of(v@),
            vv.len() == n,
            0 <= i <= n,
            found == vv.take(i as int).contains(entry@),
            forall|p: int|
                0 <= p < views_of(out@).len() ==> #[trigger] views_of(out@)[p] != entry@,
            forall|t: Seq<char>|
                t != entry@ ==> (#[trigger] views_of(out@).contains(t) <==> vv.take(
                    i as int,
                ).contains(t)),
        decreases n - i,
    {
        let ghost outv = views_of(out@);
        if v[i] == *entry {
            found = true;
            proof {
                assert(vv[i as int] == entry@);
                lemma_take_contains_succ(vv, i as int, entry@);
                assert forall|t: Seq<char>|
                    t != entry@ implies (#[trigger] views_of(out@).contains(t) <==> vv.take(
                        i as int + 1,
                    ).contains(t)) by {
                    lemma_take_contains_succ(vv, i as int, t);
                }
            }
        } else {
            out.push(v[i].clone());
            proof {
                assert(views_of(out@) =~= outv.push(vv[i as int]));
                assert(vv[i as int] != entry@);
                lemma_take_contains_succ(vv, i as int, entry@);
                assert forall|t: Seq<char>|
                    t != entry@ implies (#[trigger] views_of(out@).contains(t) <==> vv.take(
                        i as int + 1,
                    ).contains(t)) by {
                    lemma_take_contains_succ(vv, i as int, t);
                    lemma_push_contains(outv, vv[i as int], t);
                }
                assert forall|p: int|
                    0 <= p < views_of(out@).len() implies #[trigger] views_of(out@)[p]
                        != entry@ by {
                    if p < outv.len() {
                        assert(views_of(out@)[p] == outv[p]);
                    } else {
                        assert(views_of(out@)[p] == vv[i as int]);
                    }
                }
                lemma_push_contains(outv, vv[i as int], entry@);
            }
        }
        i += 1;
    }
    proof {
        assert(vv.take(n as int) =~= vv);
    }
    if !found {
        let ghost outv = views_of(out@);
        out.push(entry.clone());
        proof {
            assert(views_of(out@) =~= outv.push(entry@));
            assert forall|t: Seq<char>|
                #[trigger] views_of(out@).contains(t) <==> (outv.contains(t) || t == entry@) by {
                lemma_push_contains(outv, entry@, t);
            }
        }
    } else {
        proof {
            if views_of(out@).contains(entry@) {
                let w = views_of(out@).lemma_contains_to_index(entry@);
            }
        }
    }
    *v = out;
}

} // verus!
