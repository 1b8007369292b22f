pub mod text;
pub mod storage;
pub mod ui;
pub mod session;
pub mod keys;
pub mod config;
