//! Cut planning: gathers stock and cut records into problems, solves each
//! problem in repeated trials of a layout optimizer, selects the best
//! layout, and reports what to buy and how to cut it.

pub mod aggregate;
pub mod cut_list;
pub mod document;
pub mod fixed_point;
pub mod laws;
pub mod layout;
pub mod names;
pub mod naming;
pub mod optimizer;
pub mod problem;
pub mod purchase;
pub mod records;
pub mod report;
pub mod search;
