//! Breadify: a daily bread-order export turned into printable picking lists.

pub mod page;
pub mod chars;
pub mod sorting;
pub mod sheet;
pub mod order;
pub mod crates;
pub mod route;
pub mod total;
pub mod store;
pub mod date;
pub mod list;
pub mod supplier;
pub mod layout;
pub mod font;
pub mod steps;
pub mod grouping;
pub mod validate;
pub mod dump;
pub mod tally;
pub mod icon;
