//! Kyde: the verified core of a small git-aware code editor.

pub mod actions;
pub mod buffer;
pub mod changes;
pub mod clipboard;
pub mod collections;
pub mod controller;
pub mod diff;
pub mod diffpane;
pub mod dirlist;
pub mod editor;
pub mod find;
pub mod finder;
pub mod folds;
pub mod git;
pub mod highlight;
pub mod history;
pub mod keymap;
pub mod keys;
pub mod layout;
pub mod markdown;
pub mod mdview;
pub mod model;
pub mod operations;
pub mod overlays;
pub mod paint;
pub mod path;
pub mod pathset;
pub mod plugins;
pub mod porcelain;
pub mod runs;
pub mod terminals;
pub mod text;
pub mod workspace;
