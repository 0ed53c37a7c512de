//! Comic archive conversion: page ordering, MOBI reading, archive extraction,
//! picture re-encoding, PDF shrinking and the decisions that tie them together.

pub mod archive;
pub mod bytes;
pub mod cache;
pub mod cancel;
pub mod conversion;
pub mod convert;
pub mod device;
pub mod listing;
pub mod mobi;
pub mod names;
pub mod natural;
pub mod order;
pub mod pages;
pub mod pdf;
pub mod picture;
pub mod preview;
pub mod progress;
pub mod quality;
pub mod size;
pub mod sniff;
pub mod text;
pub mod tools;
