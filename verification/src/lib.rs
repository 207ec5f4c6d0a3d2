//! A deployment agent's core: it matches queue notifications to configured
//! events, resolves `{{...}}` tokens in shell-command templates from event
//! fields and secret values, and decides which command runs next.

pub mod cloud;
pub mod config;
pub mod executor;
pub mod json;
pub mod path_map;
pub mod template;
pub mod text;
pub mod utils;
