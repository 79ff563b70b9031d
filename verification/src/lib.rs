//! Core logic of the amnia desktop companion, with its contracts:
//!
//! * [`shell_alias`] - the alias name rules, the alias line, the choice of
//!   rc file and the rewrite of the managed block in it;
//! * [`repo_import`] - the project archive URL and the unpacking steps;
//! * [`ollama`] - the model picker's catalogue;
//! * [`system_info`] - GPU readings and the model-capacity decision;
//! * [`sidecar`] - the sidecar's runtime configuration;
//! * [`text`] - the character-level text model they share.
pub mod ollama;
pub mod repo_import;
pub mod shell_alias;
pub mod sidecar;
pub mod system_info;
pub mod text;
