//! The translation of a document: its units, what the model is asked, and what is made of the
//! replies.

pub mod asked;
pub mod config;
pub mod docmap;
pub mod job;
pub mod kept;
pub mod mapped;
pub mod memory;
pub mod notes;
pub mod outcome;
pub mod prompts;
pub mod run;
pub mod slots;
pub mod stage;
pub mod stitch;
pub mod surface;
pub mod text;
pub mod trace;
pub mod units;
