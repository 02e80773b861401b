//! Discrete input events and the handler interface the view layer
//! implements. The event source itself (keyboard, terminal, timers) lives
//! outside the library; the library only fixes the shape of what it
//! produces.
use vstd::prelude::*;

use crate::runner::Action;

verus! {

/// One discrete event from the input source.
pub enum Event<I> {
    /// A key press or other input item.
    Input(I),
    /// A timer tick; reserved, never produced by the blocking source.
    _Tick,
}

/// Something that turns input events into user actions; the view layer
/// implements it, outside the library.
pub trait Handler<I> {
    fn handle(&mut self, event: Event<I>) -> Option<Action>;
}

} // verus!
