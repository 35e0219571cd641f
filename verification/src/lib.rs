//! Configuration, command-output and error logic of a local proxy that relays
//! chat-completion requests to the Zhipu GLM coding API.
pub mod text;
pub mod config;
pub mod config_cmd;
pub mod service_cmd;
pub mod error;
pub mod client;
pub mod server;
pub mod retry;
pub mod cli;
pub mod models;
