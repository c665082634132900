//! Filtering, sorting, grouping and picker logic of a todo.txt terminal
//! client, with the rules each piece follows stated as Verus contracts.

pub mod text;
pub mod dates;
pub mod threshold;
pub mod due_filter;
pub mod todo;
pub mod search;
pub mod app;
pub mod filter;
pub mod header;
pub mod picker;
