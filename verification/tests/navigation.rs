use todotui::state::{ActiveList, BlockState, State};

#[test]
fn next_from_no_selection_selects_zero() {
    let mut b = BlockState::new(None, 3);
    b.next();
    assert_eq!(b.pos, Some(0));
}

#[test]
fn next_wraps_to_zero() {
    let mut b = BlockState::new(Some(2), 3);
    b.next();
    assert_eq!(b.pos, Some(0));
}

#[test]
fn next_steps_forward() {
    let mut b = BlockState::new(Some(0), 3);
    b.next();
    assert_eq!(b.pos, Some(1));
}

#[test]
fn previous_wraps_to_last() {
    let mut b = BlockState::new(Some(0), 3);
    b.previous();
    assert_eq!(b.pos, Some(2));
}

#[test]
fn previous_from_no_selection_selects_zero() {
    let mut b = BlockState::new(None, 3);
    b.previous();
    assert_eq!(b.pos, Some(0));
}

#[test]
fn reset_clears_stale_selection() {
    let mut b = BlockState::new(Some(4), 5);
    b.reset(3);
    assert_eq!(b.pos, None);
}

#[test]
fn reset_keeps_selection_still_in_range() {
    let mut b = BlockState::new(Some(1), 5);
    b.reset(3);
    assert_eq!(b.pos, Some(1));
}

#[test]
fn reset_same_length_is_a_no_op() {
    let mut b = BlockState::new(Some(4), 5);
    b.reset(5);
    assert_eq!(b.pos, Some(4));
}

#[test]
fn fresh_state_has_no_selection_and_tasks_active() {
    let s = State::new(3, 2, 1);
    assert_eq!(s.tasks.pos, None);
    assert_eq!(s.contexts.pos, None);
    assert_eq!(s.tags.pos, None);
    assert_eq!(s.active_list, ActiveList::Tasks);
}

#[test]
fn move_right_cycles_the_ring() {
    let mut s = State::new(0, 0, 0);
    s.move_right();
    assert_eq!(s.active_list, ActiveList::Contexts);
    s.move_right();
    assert_eq!(s.active_list, ActiveList::Tags);
    s.move_right();
    assert_eq!(s.active_list, ActiveList::Tasks);
}

#[test]
fn move_left_cycles_the_reverse_ring() {
    let mut s = State::new(0, 0, 0);
    s.move_left();
    assert_eq!(s.active_list, ActiveList::Tags);
    s.move_left();
    assert_eq!(s.active_list, ActiveList::Contexts);
    s.move_left();
    assert_eq!(s.active_list, ActiveList::Tasks);
}

#[test]
fn navigation_only_touches_the_active_list() {
    let mut s = State::new(3, 3, 3);
    s.next();
    assert_eq!(s.tasks.pos, Some(0));
    assert_eq!(s.contexts.pos, None);
    assert_eq!(s.tags.pos, None);
    s.move_right();
    s.next();
    s.next();
    assert_eq!(s.tasks.pos, Some(0));
    assert_eq!(s.contexts.pos, Some(1));
    assert_eq!(s.tags.pos, None);
}

#[test]
fn get_state_mut_reaches_each_list() {
    let mut s = State::new(1, 2, 3);
    assert_eq!(s.get_state_mut(ActiveList::Tasks).len, 1);
    assert_eq!(s.get_state_mut(ActiveList::Contexts).len, 2);
    assert_eq!(s.get_state_mut(ActiveList::Tags).len, 3);
}

#[test]
fn list_titles() {
    assert_eq!(ActiveList::Tasks.to_string(), "Tasks");
    assert_eq!(ActiveList::Contexts.to_string(), "Contexts");
    assert_eq!(ActiveList::Tags.to_string(), "Tags");
}
