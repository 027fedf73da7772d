//! Keys that are spread over bins before they are sorted.

pub mod index;
