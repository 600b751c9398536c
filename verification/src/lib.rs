//! Fills a URL path template such as `/users/:user_id/:s` with the fields of
//! a value described in the serde data model.
//!
//! Each struct field (or map key and the value after it) is rendered to text
//! and the value's text replaces the first occurrence of `:name` in the template; the elements of a sequence or tuple
//! are appended to the path, joined by `-`.

mod error;
mod text;
mod value;
mod ser;
pub mod laws;

pub use error::Error;
pub use text::{
    bool_text, decimal, digit_char, first_occurrence, is_first_occurrence, occurs_at, render_bool,
    render_i64, render_u64, replace_first, replace_first_occurrence, signed_decimal, trim_dash,
    trim_trailing_dash,
};
pub use value::{
    MapCall, Value, calls_pending, calls_supported, elements_pending, elements_supported,
    fields_pending, fields_supported, is_supported, is_supported_from, pending_after, supported,
};
pub use ser::{
    Serializer, to_string, element_step, emit, emit_calls, emit_elements, emit_fields, field_step,
    fill_path, key_step, placeholder, value_step,
};
