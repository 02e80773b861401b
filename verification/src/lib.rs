pub mod event;
pub mod filters;
pub mod runner;
pub mod state;
pub mod todo;
