//! Codec for FPAC archives: the 32-byte header, the table of entry records and
//! the 16-byte aligned data section, with the alignment arithmetic they rest on.

pub mod bytes;
pub mod error;
pub mod pac;
pub mod parser;
pub mod pixel;
pub mod utils;
