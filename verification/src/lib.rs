//! Verified core of remodeco: plan text, scheduling, journal decisions and previews.

pub mod config;
pub mod controller;
pub mod diff;
pub mod editor;
pub mod execute;
pub mod hashing;
pub mod ordering;
pub mod model;
pub mod natural;
pub mod paths;
pub mod plan;
pub mod readback;
pub mod preview;
pub mod scan;
pub mod schedule;
pub mod store;
pub mod text;
pub mod trash;
pub mod tui;
