pub mod app;
pub mod auth;
pub mod crypto;
pub mod domain;
pub mod ipc;
pub mod secret;
pub mod service;
pub mod store;
pub mod storefile;
pub mod text;
