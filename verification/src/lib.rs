//! A small verified library for `.lenv` files: a line-oriented key-value
//! text format that separates keys from values with `": "` (colon-space)
//! instead of `=`. Duplicate keys are kept, in order; accessors offer the
//! latest value or the whole sequence.
//!
//! The in-memory store, the parser and the renderer live here, with
//! contracts over a mathematical model (`Map<Seq<char>, Seq<Seq<char>>>`).
//! File input and output are left to the caller, who hands the text in and
//! takes the rendered text out.

mod format;
mod laws;
mod store;
mod text;

pub use format::apply_line;
pub use format::key_ok;
pub use format::parse_from;
pub use format::parse_line;
pub use format::parse_text;
pub use format::render_entry;
pub use format::render_keys;
pub use format::renderable;
pub use format::strip_cr;
pub use format::value_ok;
pub use format::values_ok;
pub use laws::all_lines_blank_or_comment;
pub use laws::lemma_add_accumulates;
pub use laws::lemma_delete_absent;
pub use laws::lemma_parse_empty_text;
pub use laws::lemma_parse_skips_blank_and_comment_lines;
pub use laws::lemma_set_resets;
pub use laws::line_blank_or_comment;
pub use store::LinoEnv;
pub use store::added;
pub use store::pairs_to_map;
pub use store::pairs_view;
pub use store::vals_view;
pub use store::values_of;
pub use text::find_nl;
pub use text::find_sep;
pub use text::is_ws;
pub use text::sep_at;
pub use text::trim_view;
pub use text::ws_prefix_len;
pub use text::ws_suffix_len;
