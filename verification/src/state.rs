//! Navigation state: three independently scrollable selection lists
//! (tasks, contexts, tags), one of which is active at a time.
//!
//! Each list tracks an optional selected index and a length. Navigation is
//! cyclic; when a list shrinks below the selected index, the selection is
//! cleared rather than clamped, so a stale index can never point at a
//! different item.
use vstd::prelude::*;

verus! {

/// Which of the three lists currently receives navigation input.
#[derive(Copy, Clone, Debug, Eq, PartialEq, Structural)]
pub enum ActiveList {
    Tasks,
    Contexts,
    Tags,
}

impl ActiveList {
    /// The display title of the list.
    pub fn to_string(&self) -> (r: &str)
        ensures
            r@ == match self {
                ActiveList::Tasks => "Tasks"@,
                ActiveList::Contexts => "Contexts"@,
                ActiveList::Tags => "Tags"@,
            },
    {
        match self {
            ActiveList::Tasks => "Tasks",
            ActiveList::Contexts => "Contexts",
            ActiveList::Tags => "Tags",
        }
    }
}

/// The selection that follows `sel` in a cyclic walk of a list of
/// length `len`: the first navigation selects index 0, and stepping past
/// the end wraps around to 0.
pub open spec fn next_selection(sel: Option<usize>, len: usize) -> Option<usize> {
    match sel {
        Some(i) => if i + 1 < len {
            Some((i + 1) as usize)
        } else {
            Some(0usize)
        },
        None => Some(0usize),
    }
}

/// The mirror of [`next_selection`]: the first navigation selects index 0,
/// and stepping before index 0 wraps around to the last index (or stays at
/// 0 when the list is empty).
pub open spec fn previous_selection(sel: Option<usize>, len: usize) -> Option<usize> {
    match sel {
        Some(i) => if i > 0 {
            Some((i - 1) as usize)
        } else if len > 0 {
            Some((len - 1) as usize)
        } else {
            Some(0usize)
        },
        None => Some(0usize),
    }
}

/// The selection after a list's length changes to `new_len`: a selection
/// that would fall outside the new length is cleared, never clamped.
pub open spec fn reset_selection(sel: Option<usize>, old_len: usize, new_len: usize) -> Option<
    usize,
> {
    if old_len == new_len {
        sel
    } else {
        match sel {
            Some(i) => if i >= new_len {
                None
            } else {
                Some(i)
            },
            None => None,
        }
    }
}

/// A selection is well-formed for a list when it points inside it.
pub open spec fn selection_in_range(sel: Option<usize>, len: usize) -> bool {
    sel matches Some(i) ==> i < len
}

/// Navigation never leaves the list: on a nonempty list, cyclic stepping
/// from a well-formed selection yields a well-formed selection.
pub proof fn lemma_navigation_stays_in_range(sel: Option<usize>, len: usize)
    requires
        len > 0,
        selection_in_range(sel, len),
    ensures
        selection_in_range(next_selection(sel, len), len),
        selection_in_range(previous_selection(sel, len), len),
{
}

/// Re-synchronizing to a new length can never leave a stale selection: a
/// well-formed selection is either still inside the new length or cleared,
/// never clamped to a different item.
pub proof fn lemma_reset_never_stale(sel: Option<usize>, old_len: usize, new_len: usize)
    requires
        selection_in_range(sel, old_len),
    ensures
        selection_in_range(reset_selection(sel, old_len, new_len), new_len),
{
}

/// Selection state of one scrollable list: the selected index, if any,
/// and the list's current length.
pub struct BlockState {
    pub pos: Option<usize>,
    pub len: usize,
}

impl BlockState {
    pub fn new(pos: Option<usize>, len: usize) -> (r: BlockState)
        ensures
            r.pos == pos,
            r.len == len,
    {
        BlockState { pos, len }
    }

    /// Select the next entry, cyclically.
    pub fn next(&mut self)
        ensures
            final(self).pos == next_selection(old(self).pos, old(self).len),
            final(self).len == old(self).len,
    {
        self.pos = match self.pos {
            Some(i) => if self.len > 0 && i < self.len - 1 {
                Some(i + 1)
            } else {
                Some(0)
            },
            None => Some(0),
        };
    }

    /// Select the previous entry, cyclically.
    pub fn previous(&mut self)
        ensures
            final(self).pos == previous_selection(old(self).pos, old(self).len),
            final(self).len == old(self).len,
    {
        self.pos = match self.pos {
            Some(i) => if i > 0 {
                Some(i - 1)
            } else if self.len > 0 {
                Some(self.len - 1)
            } else {
                Some(0)
            },
            None => Some(0),
        };
    }

    /// Record the list's current length, clearing a selection that the new
    /// length no longer covers.
    pub fn reset(&mut self, len: usize)
        ensures
            final(self).len == len,
            final(self).pos == reset_selection(old(self).pos, old(self).len, len),
    {
        if self.len != len {
            self.len = len;
            if let Some(i) = self.pos {
                if i >= len {
                    self.pos = None;
                }
            }
        }
    }
}

/// Navigation state of the whole screen: one [`BlockState`] per list and
/// the active-list discriminator.
pub struct State {
    pub tasks: BlockState,
    pub contexts: BlockState,
    pub tags: BlockState,
    pub active_list: ActiveList,
}

impl State {
    /// The block that `list_t` names.
    pub open spec fn spec_block(&self, list_t: ActiveList) -> BlockState {
        match list_t {
            ActiveList::Tasks => self.tasks,
            ActiveList::Contexts => self.contexts,
            ActiveList::Tags => self.tags,
        }
    }

    /// A fresh state: no selection anywhere, the given initial lengths, and
    /// the task list active.
    pub fn new(tasklen: usize, ctxlen: usize, taglen: usize) -> (r: State)
        ensures
            r.tasks.pos is None,
            r.contexts.pos is None,
            r.tags.pos is None,
            r.tasks.len == tasklen,
            r.contexts.len == ctxlen,
            r.tags.len == taglen,
            r.active_list == ActiveList::Tasks,
    {
        State {
            tasks: BlockState::new(None, tasklen),
            contexts: BlockState::new(None, ctxlen),
            tags: BlockState::new(None, taglen),
            active_list: ActiveList::Tasks,
        }
    }

    /// Select the next entry of the active list; the other lists and the
    /// active-list discriminator are untouched.
    pub fn next(&mut self)
        ensures
            final(self).active_list == old(self).active_list,
            final(self).spec_block(old(self).active_list).pos == next_selection(
                old(self).spec_block(old(self).active_list).pos,
                old(self).spec_block(old(self).active_list).len,
            ),
            final(self).spec_block(old(self).active_list).len == old(self).spec_block(
                old(self).active_list,
            ).len,
            forall|l: ActiveList|
                l != old(self).active_list ==> final(self).spec_block(l) == old(self).spec_block(
                    l,
                ),
    {
        let active = self.active_list;
        self.get_state_mut(active).next();
    }

    /// Select the previous entry of the active list; the other lists and the
    /// active-list discriminator are untouched.
    pub fn previous(&mut self)
        ensures
            final(self).active_list == old(self).active_list,
            final(self).spec_block(old(self).active_list).pos == previous_selection(
                old(self).spec_block(old(self).active_list).pos,
                old(self).spec_block(old(self).active_list).len,
            ),
            final(self).spec_block(old(self).active_list).len == old(self).spec_block(
                old(self).active_list,
            ).len,
            forall|l: ActiveList|
                l != old(self).active_list ==> final(self).spec_block(l) == old(self).spec_block(
                    l,
                ),
    {
        let active = self.active_list;
        self.get_state_mut(active).previous();
    }

    /// Cycle the active list through the ring Tasks -> Contexts -> Tags ->
    /// Tasks; selections are untouched.
    pub fn move_right(&mut self)
        ensures
            final(self).active_list == match old(self).active_list {
                ActiveList::Tasks => ActiveList::Contexts,
                ActiveList::Contexts => ActiveList::Tags,
                ActiveList::Tags => ActiveList::Tasks,
            },
            final(self).tasks == old(self).tasks,
            final(self).contexts == old(self).contexts,
            final(self).tags == old(self).tags,
    {
        self.active_list = match self.active_list {
            ActiveList::Tasks => ActiveList::Contexts,
            ActiveList::Contexts => ActiveList::Tags,
            ActiveList::Tags => ActiveList::Tasks,
        };
    }

    /// Cycle the active list through the reverse ring; selections are
    /// untouched.
    pub fn move_left(&mut self)
        ensures
            final(self).active_list == match old(self).active_list {
                ActiveList::Tasks => ActiveList::Tags,
                ActiveList::Contexts => ActiveList::Tasks,
                ActiveList::Tags => ActiveList::Contexts,
            },
            final(self).tasks == old(self).tasks,
            final(self).contexts == old(self).contexts,
            final(self).tags == old(self).tags,
    {
        self.active_list = match self.active_list {
            ActiveList::Tasks => ActiveList::Tags,
            ActiveList::Contexts => ActiveList::Tasks,
            ActiveList::Tags => ActiveList::Contexts,
        };
    }

    /// Borrow the block that `list_t` names.
    pub fn get_state_mut(&mut self, list_t: ActiveList) -> (ret: &mut BlockState)
        ensures
            *ret == old(self).spec_block(list_t),
            final(self).active_list == old(self).active_list,
            final(self).spec_block(list_t) == *final(ret),
            forall|l: ActiveList|
                l != list_t ==> final(self).spec_block(l) == old(self).spec_block(l),
    {
        match list_t {
            ActiveList::Tasks => &mut self.tasks,
            ActiveList::Contexts => &mut self.contexts,
            ActiveList::Tags => &mut self.tags,
        }
    }
}

} // verus!
