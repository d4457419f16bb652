//! Change-notification core: a sorted baseline of watched files, the deltas
//! that move it, a self-evicting token store, and the per-connection delivery
//! plan. Time is carried as plain integers (milliseconds).
pub mod authentication;
pub mod baseline;
pub mod config;
pub mod delivery;
pub mod file_change_data;
pub mod file_tracker;
pub mod frontend;
pub mod scanner;
pub mod shutdown;
pub mod token_store;
