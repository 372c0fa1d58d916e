//! The logic of a disk usage analyzer: size and name parsing, the ranked lists, the
//! bookkeeping of a directory walk, and what the terminal interface shows and does.

pub mod app;
pub mod dirs;
pub mod double;
pub mod glob;
pub mod paths;
pub mod ranking;
pub mod report;
pub mod scanner;
pub mod sizes;
pub mod state;
pub mod text;
pub mod view;
