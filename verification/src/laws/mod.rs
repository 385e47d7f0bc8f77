//! What the library promises, stated apart from how it is computed.
//!
//! Each law here speaks of inputs and results in terms of its own: the words a
//! path is made of, the lines two ranges share, the nodes that enclose another.
//! None of them leans on the steps that the code takes.

pub mod assembled;
pub mod calls;
pub mod changes;
pub mod complexity;
pub mod counting;
pub mod detail;
pub mod git;
pub mod graph;
pub mod groups;
pub mod impact;
pub mod imports;
pub mod listing;
pub mod module_graph;
pub mod modules;
pub mod naming;
pub mod protocol;
pub mod reading;
pub mod rendering;
pub mod reports;
pub mod requests;
pub mod results;
pub mod revisions;
pub mod risk;
pub mod roles;
pub mod signals;
pub mod source;
pub mod totals;
pub mod words;
