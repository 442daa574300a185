//! Format-preserving edits of the `profile` section of a Cargo manifest.

pub mod template;
pub mod toml_doc;
pub mod section;
pub mod manifest;
