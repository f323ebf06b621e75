//! Watches GPIO pins and decides, from a configuration, when a change of a
//! pin's level has lasted long enough to fire the configured action.

pub mod decimal;
pub mod utils;
pub mod document;
pub mod conf;
pub mod gpiopins;
pub mod monitor;
