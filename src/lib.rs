//! Interactive merging of two near-identical binary files: the ordered range
//! index, the differ state machines, and the decision logic of the merge view.

pub mod range_tree;
pub mod app_ctx;
pub mod apply;
pub mod diff_iter;
pub mod diff_view;
pub mod layers;
pub mod popup;
