//! Virtual file system core of a language server: stable file identifiers,
//! a change journal for the analysis database, and conversion between byte
//! offsets and editor positions counted in UTF-16 code units.

pub mod change;
pub mod file_set;
pub mod line_map;
pub mod uri;
pub mod vfs;
