//! A pager for psql's aligned output: parsing the table, laying it out and
//! scrolling through it.

pub mod chars;
pub mod width;
pub mod scalars;
pub mod data;
pub mod lines;
pub mod input;
pub mod json;
pub mod app;
pub mod layout;
pub mod readback;
