//! Picks a window out of a tiling window manager's scratchpad: the tree
//! model, the traversals that flatten it into an ordered list of labelled
//! windows, and the way back from a chosen label to a window identifier.

pub mod chooser;
pub mod command;
pub mod order;
pub mod select;
pub mod text;
pub mod tree;
