//! A small list/task manager: lists of ordered tasks, recipes, a weekly meal
//! plan, and an optional import of shopping-list items from a grocery service.
//!
//! The store keeps its tables in memory and states every operation as a
//! function on an abstract view of those tables; persistence and transport
//! are left to the program that embeds it.

pub mod todo;
pub mod grocy;
pub mod database;
pub mod position;
pub mod forms;
pub mod sorting;
pub mod recipes;
pub mod ingredients;
pub mod template;
