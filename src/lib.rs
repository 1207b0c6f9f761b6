//! Recommends unseen episodes from a fixed catalog and keeps each user's
//! viewing history as a small text record.
pub mod application;
pub mod bot;
pub mod config;
pub mod watch_url_provider;
