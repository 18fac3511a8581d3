//! IPTV live-source and programme-guide aggregation: reading playlists,
//! source lists, rules and settings, merging entries into channels,
//! ordering and filtering their streams, and writing playlists, guides and
//! stored results. Each function states in its contract what it returns
//! or changes.
pub mod text;
pub mod models;
pub mod numbers;
pub mod metadata;
pub mod source_list;
pub mod hosts;
pub mod playlist;
pub mod pattern;
pub mod assoc;
pub mod rules;
pub mod config;
pub mod sorting;
pub mod aggregate;
pub mod epg;
pub mod logo;
pub mod output;
pub mod service;
pub mod fetch;
pub mod update;
