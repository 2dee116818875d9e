pub mod cipher;
pub mod client;
pub mod commands;
pub mod connections;
pub mod records;
pub mod session;
