//! Snapshot inspection of another process's memory.
//!
//! A snapshot suspends a target, lists its memory mappings, reads those that
//! are worth reading, and collects the printable strings in them. This crate
//! holds every rule of that work and performs none of its effects: a caller
//! attaches, reads and detaches as [`session::Mem`] tells it to, and hands
//! back what came of it.
//!
//! - [`parse`] reads the mapping table, [`region`] holds one of its entries,
//!   and [`report`] writes an entry back as a line;
//! - [`reader`] decides which regions are read and what a read is worth;
//! - [`extract`] finds the strings in the bytes of a region;
//! - [`session`] is the snapshot as a state machine;
//! - [`pod`] turns bytes into fixed-width integers, and [`hex`] text into
//!   numbers.

pub mod extract;
pub mod hex;
pub mod parse;
pub mod pod;
pub mod reader;
pub mod region;
pub mod report;
pub mod session;
