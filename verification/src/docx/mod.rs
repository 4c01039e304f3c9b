//! Word documents: the package, its XML parts, and what is read from and written to them.

pub mod allocate;
pub mod anchors;
pub mod apply;
pub mod cleaned;
pub mod decompose;
pub mod error;
pub mod extract;
pub mod filter;
pub mod merging;
pub mod nesting;
pub mod noticed;
pub mod outline;
pub mod package;
pub mod project;
pub mod proportion;
pub mod pure_text;
pub mod reading;
pub mod refilled;
pub mod roundtrip;
pub mod said;
pub mod shape;
pub mod shown;
pub mod sifted;
pub mod structure;
pub mod styled;
pub mod written;
pub mod xml;
