//! An embeddable Japanese dictionary engine.
//!
//! A `Writer` ingests tags, terms and kanji, interning every string and
//! integer list into shared arenas, and emits a single self-describing binary
//! blob.  A `DB` loads such a blob back into typed sections, offers handle
//! dereferencing and accessor views, and answers exact, prefix and suffix
//! queries over the sorted key indexes.

pub mod order;
pub mod raw;
pub mod grapheme;
pub mod db;
pub mod data;
pub mod search;
pub mod utf8;
pub mod codec;
pub mod writer;

pub use writer::KanjiData;
pub use writer::TagData;
pub use writer::TermData;
pub use writer::Writer;

pub use data::Tag;
pub use data::Term;
pub use search::ResultSet;
pub use search::ResultSetIter;

pub use db::DB;
pub use db::DbError;
pub use db::DbModel;
pub use db::Section;
pub use raw::RawUint32;
pub use raw::RawInt32;
pub use raw::StrHandle;
pub use raw::VecHandle;
pub use raw::TagRaw;
pub use raw::TermRaw;
pub use raw::KanjiRaw;
pub use raw::TermIndex;
pub use raw::CharIndex;
