//! An oracle for layout tests.
//!
//! An application is rendered at several screen sizes. At each size its tree
//! of nodes is recorded: that is a *test set*. The library looks at the boxes
//! of the nodes and finds siblings that overlap, children that stick out of
//! their parent, and edges that are aligned at some screen sizes but not at
//! all. Findings that recur are then taken for what the layout is meant to
//! be, and removed.
//!
//! - [`layout_validator`] holds the nodes, the tab stops and the three rules.
//! - [`test_sets`] makes test sets of recorded trees.
//! - [`baseline_finder`] finds and removes what is taken for intended.
//! - [`report`] writes the findings down.
//! - [`server`] and [`message`] take in what the application under test sends.
//! - [`random_color`] has the colours in which nodes are drawn.
//! - [`text`] and [`sequences`] serve the others.

pub mod baseline_finder;
pub mod layout_validator;
pub mod message;
pub mod random_color;
pub mod report;
pub mod sequences;
pub mod server;
pub mod test_sets;
pub mod text;
