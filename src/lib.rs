//! Tails append-only log files and decides which complete lines are to be
//! shipped to a message sink, tracking a read cursor per watched file.

pub mod config;
pub mod lines;
pub mod tail;
