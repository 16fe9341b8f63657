//! Verified core of a plain-text vault: a line-oriented todo codec, an
//! archive and streak engine built on it, and the pure classification
//! logic of a debounced file watcher. All file and event I/O lives in the
//! surrounding application; this crate works on plain values and proves
//! its contracts with Verus.

pub mod archive;
pub mod archive_laws;
pub mod codec_laws;
pub mod dates;
pub mod metadata;
pub mod prompts;
pub mod stats;
pub mod text;
pub mod todos;
pub mod watcher;
