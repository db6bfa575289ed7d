//! A borrowed-document-model builder for JSON bytes: a structural
//! pre-scan classifies the input, and a recursive-descent builder
//! turns the token stream into a value tree, storing short
//! escape-free strings inline. Numbers are 64-bit integers here:
//! float tokens are refused as `InvalidNumber`, and `\u` escapes as
//! `InvalidEscape`; both belong to the external number and string
//! parsers that sit outside this verified core.

mod deser;
mod error;
mod number;
mod object;
mod small_string;
mod value;

pub use deser::{Deserializer, to_value, parse_dispatch_post, starts_value, escape_map, unescape,
    token_string, skip_to, spec_parse_value, spec_parse_elems, spec_parse_pairs, spec_scan,
    spec_count_pass, spec_find_close, spec_number_end, toks_cons, is_ws, is_number_byte,
    lemma_find_close_bounds, lemma_number_end_bounds, MAX_DEPTH};
pub use object::{ObjectMap, has_key, last_key_index, lookup, key_index_view,
    lemma_last_key_index_props, lemma_last_key_index_push, lemma_values_wf,
    lemma_entry_decreases, lemma_map_view_decreases};
pub use value::{Value, SpecVal, value_wf, value_eq, array_wf, array_eq, entries_wf, entries_sub,
    models, models_seq, models_entries, spec_content, lemma_content_ignores_representation,
    lemma_array_wf, lemma_entries_wf, lemma_array_eq, lemma_entries_sub, lemma_models_seq_push,
    lemma_models_entries_push};

pub use error::ErrorType;
pub use number::{Number, parse_int, is_digit, is_float_marker, digits_end, digits_value,
    token_value, token_ok, lemma_digits_end_props, lemma_digits_value_mono,
    lemma_digits_value_nonneg};

pub use small_string::{SmallString, scan_small, small_scan_spec, is_close_at, has_small_close,
    small_close_pos, lemma_close_unique, lemma_small_string_round_trip,
    lemma_small_string_boundary, lemma_escape_forces_fallback, SMALL_STR_LEN, QUOTE, BACKSLASH};

use vstd::prelude::*;

verus! {

/// Kind tag for a JSON value, as reported by `Value::kind`.
#[derive(PartialEq, Eq, Structural, Clone, Copy, Debug)]
pub enum ValueType {
    Null,
    Bool,
    I64,
    String,
    Array,
    Object,
}

} // verus!
