//! A local source-code search library built on a persistent trigram
//! index.
//!
//! A corpus of files is turned into an index file: for every distinct
//! 3-byte alphanumeric trigram, a posting-list bitmap records which
//! documents contain it. Queries derive trigrams from their terms, OR
//! the matching posting lists into a candidate set, and re-score each
//! candidate document's contents.

mod bitmap;
mod encoding;
mod index;
mod index_error;
mod save_path;
mod search;
mod trigram;

pub use bitmap::BitMap;
pub use bitmap::BitMapIterator;
pub use encoding::is_printable;
pub use encoding::is_utf8;
pub use encoding::to_hex;
pub use index::build_documents;
pub use index::Document;
pub use index::FileStamp;
pub use index::Index;
pub use index::InputFile;
pub use index_error::IndexError;
pub use save_path::save_file_name;
pub use search::candidates;
pub use search::collect_query_trigrams;
pub use search::get_preview;
pub use search::rank_bytes;
pub use search::rank_document;
pub use search::sort_results;
pub use search::Preview;
pub use search::SearchResult;
pub use trigram::extract_trigrams;
pub use trigram::get_trigrams;
pub use trigram::window_kept;
pub use trigram::Trigram;
