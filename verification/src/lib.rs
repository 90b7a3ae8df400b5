//! Directory jumping: ranking, storage rules, the picker and the daemon's decisions.

pub mod config;
pub mod daemon;
pub mod db;
pub mod dirs;
pub mod distance;
pub mod error;
pub mod fallback;
pub mod fan;
pub mod frecency;
pub mod fuzzy;
pub mod i18n;
pub mod index;
pub mod jump;
pub mod like;
pub mod order;
pub mod path;
pub mod picked;
pub mod picker;
pub mod promises;
pub mod rank;
pub mod report;
pub mod scanner;
pub mod score;
pub mod setup;
pub mod sorted;
pub mod table;
pub mod text;
pub mod ui;
pub mod update;
