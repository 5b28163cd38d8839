//! Formatting-preserving editor for the sections of a development-environment
//! profile written in the Nix expression language.
pub mod commands;
pub mod env;
pub mod error;
pub mod hook_laws;
pub mod inputs;
pub mod interfaces;
pub mod laws;
pub mod lexer;
pub mod model;
pub mod packages;
pub mod pin_laws;
pub mod pins;
pub mod profile;
pub mod render;
pub mod render_env;
pub mod render_packages;
pub mod section;
pub mod text;
pub mod validate;
