//! Table ordering, column layout and process-tree logic of the TaskMan UI.
use vstd::prelude::*;

pub mod text;
pub mod compare;
pub mod sort_state;
pub mod value_columns;
pub mod details;
pub mod details_state;
pub mod details_tree;
pub mod details_rows;
pub mod process_rules;
pub mod menus;
pub mod app_history;
pub mod apphistory;
pub mod users;
pub mod session_tally;
pub mod window_state;
pub mod performance;
pub mod chart;
pub mod processes;
pub mod forest;
pub mod stable_sort;
pub mod process_order;
pub mod process_rows;
pub mod process_nav;
pub mod startup;
pub mod modules;
pub mod module_list;
pub mod module_unload;
pub mod services;

verus! {
} // verus!
