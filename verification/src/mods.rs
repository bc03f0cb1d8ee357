pub mod cliinput;
pub mod config;
pub mod file;
pub mod order;
pub mod types;
