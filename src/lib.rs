//! Word-frequency counting over the contents of a set of files.
//!
//! Each file contributes the words of its text; files that could not be read
//! or are not valid UTF-8 contribute nothing. Workers count batches of files
//! into partial tables, which are merged into one table and then listed by
//! descending count.

pub mod counts;
pub mod pipeline;
pub mod rank;
pub mod tally;
pub mod text;

pub use counts::{CountError, WordCounts};
pub use pipeline::{count_words, count_words_chunked, merge_all, rank_partials};
pub use tally::{count_batch, count_chunked, merge_counts};
pub use text::{Tokenizer, WORD_PATTERN};
