//! Verified core of the DSH desktop launcher.

pub mod paths;
pub mod text;
pub mod profile;
pub mod config;
pub mod tasks;
pub mod json;
pub mod order;
pub mod plugins;
pub mod launch;
pub mod toolchain;
pub mod process;
pub mod runtime;
pub mod commands;
pub mod links;
