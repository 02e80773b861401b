pub mod item;
pub mod list;

