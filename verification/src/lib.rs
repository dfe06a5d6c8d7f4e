//! Verified word-frequency counting: tokenize text into whitespace-separated
//! words, lowercase them, drop stop words, count occurrences per word, and
//! rank the most frequent words.

use vstd::prelude::*;

mod counts;
mod laws;
mod rank;
mod render;
mod stop;
mod text;

pub use counts::WordCount;
pub use counts::count_words;
pub use counts::counts_text;
pub use counts::entries_view;
pub use counts::entry_view;
pub use counts::lemma_qualifying_excludes_stop;
pub use counts::lemma_qualifying_len;
pub use counts::lemma_seq_count_at;
pub use counts::lemma_seq_count_zero;
pub use counts::occ;
pub use counts::qualifying;
pub use counts::seq_count;
pub use counts::seq_mass;
pub use laws::distinct_entries;
pub use laws::lemma_count_determined;
pub use laws::lemma_count_len;
pub use laws::lemma_counts_unique;
pub use laws::lemma_ranked_excludes_stop;
pub use laws::lemma_recount_same_pairs;
pub use laws::lemma_stop_word_never_counted;
pub use rank::rank;
pub use rank::top_words;
pub use rank::word_listed;
pub use render::WORD_COLUMN_WIDTH;
pub use render::dec_digits;
pub use render::digit_char;
pub use render::padded;
pub use render::quoted;
pub use render::render_decimal;
pub use render::render_header;
pub use render::render_line;
pub use render::rendered_header;
pub use render::rendered_line;
pub use render::spaces;
pub use stop::StopWords;
pub use stop::default_stop_seq;
pub use stop::default_stop_set;
pub use text::is_space;
pub use text::lower_of;
pub use text::spec_is_space;
pub use text::tokenize;
pub use text::tokens_of;

verus! {

/// How many top words are reported when no other number is asked for.
pub const DEFAULT_TOP_N: usize = 10;

} // verus!
