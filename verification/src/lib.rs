//! Tools for files and their names, with the rules they go by stated and
//! proved.
//!
//! The heart of the crate is the renumbering of directories of numbered
//! files. [`dir`] sorts the files of a directory into kinds, [`dir_consolidate`]
//! and [`dir_num_by_age`] say which renames an operation asks for,
//! [`dir_num_by_age::make_move_list`] puts renames into an order in which they
//! can be carried out one by one, [`move_plan`] says what such a plan has to
//! be, so that no rename overwrites a file, and [`common`] directs the run.
//! [`planner`] ties these together. Nothing in the crate touches the file system: a caller reads
//! the directory, hands over what it found, and does what it is told.
//!
//! The other modules hold the rules of smaller tools: renaming by pattern
//! ([`mmv`], [`replace`]), flattening names ([`cs`]), sorting by initial
//! ([`alsort`]), picking files ([`randos`]), mixing text ([`mixup`]), linking
//! dotfiles ([`flink`]), aligning times ([`align_mtimes`]) and counting
//! ([`cf`]).

pub mod align_mtimes;
pub mod alsort;
pub mod cf;
pub mod chars;
pub mod common;
pub mod cs;
pub mod decimal;
pub mod dir;
pub mod dir_consolidate;
pub mod dir_num_by_age;
pub mod file;
pub mod file_tokens;
pub mod flink;
pub mod mixup;
pub mod mmv;
pub mod move_plan;
pub mod order;
pub mod paths;
pub mod pattern;
pub mod planner;
pub mod randos;
pub mod replace;
pub mod text;
pub mod types;
