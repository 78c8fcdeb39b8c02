//! Application catalog, launch-command sanitising and incremental ranking
//! for a desktop application launcher.
pub mod entry;
pub mod launch;
pub mod text;
pub mod catalog;
pub mod rank;
