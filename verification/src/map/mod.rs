//! The copy map: the destination folder tree drawn as nodes, where a line from a
//! device to a node is a copy task.
//!
//! - `model`: the tree, its invariant and every edit, each checked when it is made;
//! - `dispatch`: adding and removing device → node assignments;
//! - `template`: map templates and their string-template view;
//! - `refresh`: one-way, additive sync from folders on disk into the tree.

pub mod model;
pub mod edit;
pub mod describe;
pub mod prune;
pub mod relocate;
pub mod dispatch;
pub mod template;
pub mod refresh;
