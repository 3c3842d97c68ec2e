//! Disk usage map: a scanned directory tree, its size bookkeeping, and the text it shows.
pub mod text;
pub mod tree;
mod tree_facts;
pub mod i18n;
pub mod mounts;
pub mod uri;
pub mod builder;
pub mod nav;
