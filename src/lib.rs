//! Renumbers the files of a directory into a sequence that follows a pattern
//! such as `file-{}`: files that already follow it keep their names and their
//! numbers, and every other file gets the lowest number still free.
pub mod matcher;
pub mod names;
pub mod numbering;
pub mod text;
