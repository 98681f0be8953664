//! Parser for plain-text renderings of two-column power-outage notices.
//!
//! The input is one layout-preserving text blob per document. The library
//! undoes the two-column print layout page by page, drops boilerplate, and
//! reconstructs a Region -> Part -> Area hierarchy with each area's place
//! list, date and time window. Acquiring the text (converting a PDF,
//! downloading a file) is left to callers.

pub mod client;
pub mod data;
pub mod laws;
pub mod dates;
pub mod text;
