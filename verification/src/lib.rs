//! Finding and removing the largest files and folders under a path.
//!
//! `walk` sums up directories one listing at a time, `tree` says what that
//! amounts to on a whole directory tree, and `scan` ranks what was found. Two
//! editions show it: `list` asks line by line, and `browser`, with `screen`
//! and `menu`, is driven by single keys.
pub mod browser;
pub mod keys;
pub mod list;
pub mod menu;
pub mod outline;
pub mod path;
pub mod pathset;
pub mod rank;
pub mod scan;
pub mod screen;
pub mod size;
pub mod split;
pub mod table;
pub mod text;
pub mod tree;
pub mod walk;
