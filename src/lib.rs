//! A two-file, disk-resident inverted index of word occurrences.
//!
//! An index file holds one line per distinct word with all its locations; a
//! fixed-size bucket table maps a cheap word hash to the byte offset of the
//! first index line whose word has that hash. A lookup reads one slot of the
//! table and scans the index forward from that offset.
pub mod hash;
pub mod index;
pub mod laws;
pub mod layout;
pub mod lookup;
pub mod table;
pub mod text;
