//! A library for the core logic of a `head`-style utility: it selects a
//! bounded prefix of each input source, by line count or by byte count,
//! where a negative count means "drop that many units from the end".
pub mod head_cli;
pub mod laws;
pub mod limit;
pub mod lines;
