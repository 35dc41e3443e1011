//! nog — tier-aware update planning for Arch Linux package sources.

pub mod config;
pub mod table;
pub mod text;
pub mod sync_db;
pub mod tiers;
pub mod holds;
pub mod local_db;
pub mod pacman;
pub mod aur;
pub mod runlog;
pub mod sources;
pub mod reboot;
pub mod flatpak;
pub mod snap;
pub mod plan;
pub mod report;
