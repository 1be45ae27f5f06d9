//! Verified core of a Steam build rollback tool: Valve text and binary VDF
//! handling, changelogs and build timelines, manifest resolution, applying
//! and undoing a downgrade, the community archive's bookkeeping, the rollback
//! library and the settings model.

pub mod applier;
pub mod archive;
pub mod auth;
pub mod changelog;
pub mod date;
pub mod downloader;
pub mod error;
pub mod library;
pub mod order;
pub mod paths;
pub mod resolver;
pub mod rollback;
pub mod settings;
pub mod shortcuts;
pub mod sidecar;
pub mod text;
pub mod timeline;
pub mod vdf;
