//! Catalog engine for removable game-storage volumes.
//!
//! The crate discovers game libraries on removable volumes and reconciles
//! what it finds with a previously persisted catalog.  All logic here is
//! pure: callers hand in the text produced by the block-device listing
//! tool and a snapshot of the directory names found on each volume, and
//! get back catalog values ready to persist or display.

pub mod games;
pub mod locate;
pub mod merge;
pub mod model;
pub mod persist;
pub mod text;
pub mod ui;
pub mod volumes;
