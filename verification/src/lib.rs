//! A line-oriented text search: which lines of which files contain a
//! pattern, and how they are shown.
//!
//! The library decides and the caller does the reading and the printing.
//! [`config`] reads the settings from the arguments of a command line.
//! [`resolver`] turns the paths that were named, together with what the
//! file system says of them, into the list of files to search, each file
//! once. [`lines`] splits the bytes of a file into lines. [`matcher`]
//! says whether a line contains the pattern, literally and with or
//! without regard to case, and marks the occurrences for highlighting;
//! [`occurrence`] and [`highlight`] hold what that means, [`engine`] the
//! regular-expression engine that does the searching, and [`offsets`] the
//! step from the engine's byte offsets to characters. [`scanner`] goes
//! through the lines of a file, numbers them and hands on those that
//! [`select`] lets through; [`record`] gives each its printed form.
//! [`session`] is a search as it runs: it says which file to open and
//! which line to read next, and when to stop.

pub mod config;
pub mod engine;
pub mod highlight;
pub mod lines;
pub mod matcher;
pub mod occurrence;
pub mod offsets;
pub mod pathset;
pub mod record;
pub mod resolver;
pub mod scanner;
pub mod select;
pub mod session;
pub mod text;
