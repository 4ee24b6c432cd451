//! Request and stream rewriting for a local proxy in front of NVIDIA NIM
//! chat-completion models.

pub mod json;
pub mod text;
pub mod models;
pub mod config;
pub mod cli;
pub mod transform;
pub mod sse;
pub mod server;
pub mod proxy;
