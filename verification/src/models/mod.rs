//! The models that translate.

pub mod native;
