//! Online A/B updates for a Pixel running Linux: what is flashed where, in which order, and when
//! the slots are switched.
//!
//! Nothing here touches the system. A function is handed what was read, or what came of the last
//! piece of work, and says what follows.

pub mod bootctl;
pub mod cli;
pub mod error;
pub mod flash;
pub mod path;
pub mod rootfs;
pub mod slot;
pub mod text;
pub mod update;
