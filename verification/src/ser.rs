use vstd::prelude::*;
use vstd::string::*;

use crate::error::Error;
use crate::text::{
    bool_text, decimal, render_bool, render_i64, render_u64, replace_first,
    replace_first_occurrence, signed_decimal, trim_dash, trim_trailing_dash, push_char,
};
use crate::value::{
    MapCall, Value, calls_pending, calls_supported, elements_pending, elements_supported,
    fields_pending, fields_supported, lemma_calls_prefix, lemma_elements_prefix,
    lemma_fields_prefix, pending_after, supported,
};

verus! {

/// The text `:name` that stands for a field or map key in a path template.
pub open spec fn placeholder(name: Seq<char>) -> Seq<char> {
    seq![':'] + name
}

/// What serializing `v` does to the path built so far `out` and the map key
/// `key` that waits for its value: the path and the waiting key afterwards,
/// and the text returned for `v`.
///
/// Scalars change nothing and return their text. A sequence or tuple
/// appends each element's text followed by `-` and then drops the last `-`;
/// a struct replaces the first `:name` of the path by each field's text; a
/// map does the same for each key and the value that follows it. Compound
/// values return the empty text.
pub open spec fn emit(out: Seq<char>, key: Option<Seq<char>>, v: Value) -> (
    Seq<char>,
    Option<Seq<char>>,
    Seq<char>,
)
    decreases v, 0int,
{
    match v {
        Value::Bool(b) => (out, key, bool_text(b)),
        Value::I64(i) => (out, key, signed_decimal(i as int)),
        Value::U64(u) => (out, key, decimal(u as nat)),
        Value::Float(s) => (out, key, s@),
        Value::Char(c) => (out, key, seq![c]),
        Value::Str(s) => (out, key, s@),
        Value::UnitVariant(name) => (out, key, name@),
        Value::Optional(Some(b)) => emit(out, key, *b),
        Value::NewtypeStruct(b) => emit(out, key, *b),
        Value::NewtypeVariant(b) => emit(out, key, *b),
        Value::Sequence(xs) => {
            let (o, k) = emit_elements(out, key, xs@);
            (trim_dash(o), k, Seq::empty())
        },
        Value::Tuple(xs) => {
            let (o, k) = emit_elements(out, key, xs@);
            (trim_dash(o), k, Seq::empty())
        },
        Value::Mapping(cs) => {
            let (o, k) = emit_calls(out, key, cs@);
            (o, k, Seq::empty())
        },
        Value::Struct(fs) => {
            let (o, k) = emit_fields(out, key, fs@);
            (o, k, Seq::empty())
        },
        _ => (out, key, Seq::empty()),
    }
}

/// An element of a sequence or tuple: its text and then `-` are appended.
pub open spec fn element_step(out: Seq<char>, key: Option<Seq<char>>, v: Value) -> (
    Seq<char>,
    Option<Seq<char>>,
)
    decreases v, 1int,
{
    let (o, k, text) = emit(out, key, v);
    (o + text + seq!['-'], k)
}

/// A map key: its text becomes the waiting key, in place of any earlier one.
pub open spec fn key_step(out: Seq<char>, key: Option<Seq<char>>, k: Value) -> (
    Seq<char>,
    Option<Seq<char>>,
)
    decreases k, 1int,
{
    let (o, _, text) = emit(out, key, k);
    (o, Some(text))
}

/// A map value: it takes the waiting key, and its text replaces the first
/// `:key` of the path; with no key waiting, nothing happens.
pub open spec fn value_step(out: Seq<char>, key: Option<Seq<char>>, v: Value) -> (
    Seq<char>,
    Option<Seq<char>>,
)
    decreases v, 1int,
{
    match key {
        Some(name) => {
            let (o, k, text) = emit(out, None, v);
            (replace_first(o, placeholder(name), text), k)
        },
        None => (out, None),
    }
}

/// A struct field: its text replaces the first `:name` of the path.
pub open spec fn field_step(
    out: Seq<char>,
    key: Option<Seq<char>>,
    name: Seq<char>,
    v: Value,
) -> (Seq<char>, Option<Seq<char>>)
    decreases v, 1int,
{
    let (o, k, text) = emit(out, key, v);
    (replace_first(o, placeholder(name), text), k)
}

/// The path and waiting key after the elements of a sequence, in order.
pub open spec fn emit_elements(out: Seq<char>, key: Option<Seq<char>>, s: Seq<Value>) -> (
    Seq<char>,
    Option<Seq<char>>,
)
    decreases s, 0int,
{
    if s.len() == 0 {
        (out, key)
    } else {
        let (o, k) = emit_elements(out, key, s.drop_last());
        element_step(o, k, s.last())
    }
}

/// The path and waiting key after the calls of a map, in order.
pub open spec fn emit_calls(out: Seq<char>, key: Option<Seq<char>>, s: Seq<MapCall>) -> (
    Seq<char>,
    Option<Seq<char>>,
)
    decreases s, 0int,
{
    if s.len() == 0 {
        (out, key)
    } else {
        let (o, k) = emit_calls(out, key, s.drop_last());
        match s.last() {
            MapCall::Key(kv) => key_step(o, k, kv),
            MapCall::Value(v) => value_step(o, k, v),
        }
    }
}

/// The path and waiting key after the fields of a struct, in order.
pub open spec fn emit_fields(
    out: Seq<char>,
    key: Option<Seq<char>>,
    s: Seq<(String, Value)>,
) -> (Seq<char>, Option<Seq<char>>)
    decreases s, 0int,
{
    if s.len() == 0 {
        (out, key)
    } else {
        let (o, k) = emit_fields(out, key, s.drop_last());
        field_step(o, k, s.last().0@, s.last().1)
    }
}

/// The path that `to_string` returns for `path` and `v`.
pub open spec fn fill_path(path: Seq<char>, v: Value) -> Seq<char> {
    emit(path, None, v).0
}

/// The state of a serialization: the path built so far, and the text of the
/// map key whose value comes next.
pub struct Serializer {
    map_key: Option<String>,
    output: String,
}

impl Serializer {
    /// The path built so far.
    pub closed spec fn output_text(&self) -> Seq<char> {
        self.output@
    }

    /// The text of the map key that waits for its value.
    pub closed spec fn pending_key(&self) -> Option<Seq<char>> {
        match self.map_key {
            Some(k) => Some(k@),
            None => None,
        }
    }

    /// A serializer that starts from the path template `path`.
    pub fn new(path: String) -> (s: Serializer)
        ensures
            s.output_text() == path@,
            s.pending_key() is None,
    {
        Serializer { map_key: None, output: path }
    }

    /// The path built so far.
    pub fn into_output(self) -> (s: String)
        ensures
            s@ == self.output_text(),
    {
        self.output
    }

    /// A boolean is rendered as `true` or `false`.
    pub fn serialize_bool(&self, v: bool) -> (s: String)
        ensures
            s@ == bool_text(v),
    {
        render_bool(v)
    }

    /// Signed integers are rendered in decimal.
    pub fn serialize_i8(&self, v: i8) -> (s: String)
        ensures
            s@ == signed_decimal(v as int),
    {
        self.serialize_i64(v as i64)
    }

    pub fn serialize_i16(&self, v: i16) -> (s: String)
        ensures
            s@ == signed_decimal(v as int),
    {
        self.serialize_i64(v as i64)
    }

    pub fn serialize_i32(&self, v: i32) -> (s: String)
        ensures
            s@ == signed_decimal(v as int),
    {
        self.serialize_i64(v as i64)
    }

    pub fn serialize_i64(&self, v: i64) -> (s: String)
        ensures
            s@ == signed_decimal(v as int),
    {
        render_i64(v)
    }

    /// Unsigned integers are rendered in decimal.
    pub fn serialize_u8(&self, v: u8) -> (s: String)
        ensures
            s@ == decimal(v as nat),
    {
        self.serialize_u64(v as u64)
    }

    pub fn serialize_u16(&self, v: u16) -> (s: String)
        ensures
            s@ == decimal(v as nat),
    {
        self.serialize_u64(v as u64)
    }

    pub fn serialize_u32(&self, v: u32) -> (s: String)
        ensures
            s@ == decimal(v as nat),
    {
        self.serialize_u64(v as u64)
    }

    pub fn serialize_u64(&self, v: u64) -> (s: String)
        ensures
            s@ == decimal(v as nat),
    {
        render_u64(v)
    }

    /// A character is rendered as the one-character string.
    pub fn serialize_char(&self, v: char) -> (s: String)
        ensures
            s@ == seq![v],
    {
        let mut s = String::new();
        push_char(&mut s, v);
        s
    }

    /// A string is rendered as itself.
    pub fn serialize_str(&self, v: &str) -> (s: String)
        ensures
            s@ == v@,
    {
        String::from_str(v)
    }

    /// A unit variant is rendered as its name.
    pub fn serialize_unit_variant(&self, variant: &str) -> (s: String)
        ensures
            s@ == variant@,
    {
        self.serialize_str(variant)
    }

    /// Serializes `v`: updates the path and the waiting key, and returns the
    /// text of `v`.
    pub fn serialize(&mut self, v: &Value) -> (s: String)
        requires
            supported(old(self).pending_key() is Some, *v),
        ensures
            (final(self).output_text(), final(self).pending_key(), s@) == emit(
                old(self).output_text(),
                old(self).pending_key(),
                *v,
            ),
            (final(self).pending_key() is Some) == pending_after(
                old(self).pending_key() is Some,
                *v,
            ),
        decreases v, 0int,
    {
        match v {
            Value::Bool(b) => self.serialize_bool(*b),
            Value::I64(i) => self.serialize_i64(*i),
            Value::U64(u) => self.serialize_u64(*u),
            Value::Float(text) => String::from_str(text.as_str()),
            Value::Char(c) => self.serialize_char(*c),
            Value::Str(text) => self.serialize_str(text.as_str()),
            Value::UnitVariant(name) => self.serialize_unit_variant(name.as_str()),
            Value::Optional(Some(b)) => self.serialize(b),
            Value::NewtypeStruct(b) => self.serialize(b),
            Value::NewtypeVariant(b) => self.serialize(b),
            Value::Sequence(xs) => {
                self.serialize_elements(xs);
                self.end_seq()
            },
            Value::Tuple(xs) => {
                self.serialize_elements(xs);
                self.end_seq()
            },
            Value::Mapping(cs) => {
                self.serialize_calls(cs);
                self.end()
            },
            Value::Struct(fs) => {
                self.serialize_fields(fs);
                self.end()
            },
            _ => String::new(),
        }
    }

    fn serialize_elements(&mut self, xs: &Vec<Value>)
        requires
            elements_supported(old(self).pending_key() is Some, xs@),
        ensures
            (final(self).output_text(), final(self).pending_key()) == emit_elements(
                old(self).output_text(),
                old(self).pending_key(),
                xs@,
            ),
            (final(self).pending_key() is Some) == elements_pending(
                old(self).pending_key() is Some,
                xs@,
            ),
        decreases xs, 0int,
    {
        let ghost start = (self.output_text(), self.pending_key());
        let ghost p = self.pending_key() is Some;
        let mut i: usize = 0;
        while i < xs.len()
            invariant
                i <= xs@.len(),
                p == (start.1 is Some),
                elements_supported(p, xs@),
                (self.output_text(), self.pending_key()) == emit_elements(
                    start.0,
                    start.1,
                    xs@.take(i as int),
                ),
                (self.pending_key() is Some) == elements_pending(p, xs@.take(i as int)),
            decreases xs@.len() - i,
        {
            proof {
                lemma_elements_prefix(p, xs@, i as int);
                assert(xs@.take(i + 1).drop_last() == xs@.take(i as int));
            }
            self.serialize_element(&xs[i]);
            i = i + 1;
        }
        assert(xs@.take(xs@.len() as int) == xs@);
    }

    /// An element of a sequence or tuple: its text, then `-`, is appended
    /// to the path.
    pub fn serialize_element(&mut self, v: &Value)
        requires
            supported(old(self).pending_key() is Some, *v),
        ensures
            (final(self).output_text(), final(self).pending_key()) == element_step(
                old(self).output_text(),
                old(self).pending_key(),
                *v,
            ),
            (final(self).pending_key() is Some) == pending_after(
                old(self).pending_key() is Some,
                *v,
            ),
        decreases v, 1int,
    {
        let text = self.serialize(v);
        self.output.append(text.as_str());
        self.output.append("-");
        proof {
            reveal_strlit("-");
        }
    }

    /// The end of a sequence or tuple: a trailing `-` is dropped from the
    /// path, and the sequence itself has the empty text.
    pub fn end_seq(&mut self) -> (s: String)
        ensures
            final(self).pending_key() == old(self).pending_key(),
            final(self).output_text() == trim_dash(old(self).output_text()),
            s@ == Seq::<char>::empty(),
    {
        trim_trailing_dash(&mut self.output);
        String::new()
    }

    fn serialize_calls(&mut self, cs: &Vec<MapCall>)
        requires
            calls_supported(old(self).pending_key() is Some, cs@),
        ensures
            (final(self).output_text(), final(self).pending_key()) == emit_calls(
                old(self).output_text(),
                old(self).pending_key(),
                cs@,
            ),
            (final(self).pending_key() is Some) == calls_pending(
                old(self).pending_key() is Some,
                cs@,
            ),
        decreases cs, 0int,
    {
        let ghost start = (self.output_text(), self.pending_key());
        let ghost p = self.pending_key() is Some;
        let mut i: usize = 0;
        while i < cs.len()
            invariant
                i <= cs@.len(),
                p == (start.1 is Some),
                calls_supported(p, cs@),
                (self.output_text(), self.pending_key()) == emit_calls(
                    start.0,
                    start.1,
                    cs@.take(i as int),
                ),
                (self.pending_key() is Some) == calls_pending(p, cs@.take(i as int)),
            decreases cs@.len() - i,
        {
            proof {
                lemma_calls_prefix(p, cs@, i as int);
                assert(cs@.take(i + 1).drop_last() == cs@.take(i as int));
            }
            match &cs[i] {
                MapCall::Key(k) => self.serialize_key(k),
                MapCall::Value(v) => self.serialize_value(v),
            }
            i = i + 1;
        }
        assert(cs@.take(cs@.len() as int) == cs@);
    }

    /// A map key: its text waits for the value that follows, in place of
    /// any key that waited before.
    pub fn serialize_key(&mut self, k: &Value)
        requires
            supported(old(self).pending_key() is Some, *k),
        ensures
            (final(self).output_text(), final(self).pending_key()) == key_step(
                old(self).output_text(),
                old(self).pending_key(),
                *k,
            ),
        decreases k, 1int,
    {
        let key = self.serialize(k);
        self.map_key = Some(key);
    }

    /// A map value: when a key waits, the value takes it and its text
    /// replaces the first `:key` of the path; when none waits, nothing
    /// happens.
    pub fn serialize_value(&mut self, v: &Value)
        requires
            old(self).pending_key() is Some ==> supported(false, *v),
        ensures
            (final(self).output_text(), final(self).pending_key()) == value_step(
                old(self).output_text(),
                old(self).pending_key(),
                *v,
            ),
            (final(self).pending_key() is Some) == (old(self).pending_key() is Some
                && pending_after(false, *v)),
        decreases v, 1int,
    {
        if let Some(key) = self.map_key.take() {
            let text = self.serialize(v);
            self.replace_placeholder(key.as_str(), text.as_str());
        }
    }

    fn serialize_fields(&mut self, fs: &Vec<(String, Value)>)
        requires
            fields_supported(old(self).pending_key() is Some, fs@),
        ensures
            (final(self).output_text(), final(self).pending_key()) == emit_fields(
                old(self).output_text(),
                old(self).pending_key(),
                fs@,
            ),
            (final(self).pending_key() is Some) == fields_pending(
                old(self).pending_key() is Some,
                fs@,
            ),
        decreases fs, 0int,
    {
        let ghost start = (self.output_text(), self.pending_key());
        let ghost p = self.pending_key() is Some;
        let mut i: usize = 0;
        while i < fs.len()
            invariant
                i <= fs@.len(),
                p == (start.1 is Some),
                fields_supported(p, fs@),
                (self.output_text(), self.pending_key()) == emit_fields(
                    start.0,
                    start.1,
                    fs@.take(i as int),
                ),
                (self.pending_key() is Some) == fields_pending(p, fs@.take(i as int)),
            decreases fs@.len() - i,
        {
            proof {
                lemma_fields_prefix(p, fs@, i as int);
                assert(fs@.take(i + 1).drop_last() == fs@.take(i as int));
            }
            self.serialize_field(fs[i].0.as_str(), &fs[i].1);
            i = i + 1;
        }
        assert(fs@.take(fs@.len() as int) == fs@);
    }

    /// A struct field: the value's text replaces the first `:key` of the
    /// path.
    pub fn serialize_field(&mut self, key: &str, v: &Value)
        requires
            supported(old(self).pending_key() is Some, *v),
        ensures
            (final(self).output_text(), final(self).pending_key()) == field_step(
                old(self).output_text(),
                old(self).pending_key(),
                key@,
                *v,
            ),
            (final(self).pending_key() is Some) == pending_after(
                old(self).pending_key() is Some,
                *v,
            ),
        decreases v, 1int,
    {
        let text = self.serialize(v);
        self.replace_placeholder(key, text.as_str());
    }

    /// Replaces the first `:key` of the path by `text`.
    fn replace_placeholder(&mut self, key: &str, text: &str)
        ensures
            final(self).pending_key() == old(self).pending_key(),
            final(self).output_text() == replace_first(
                old(self).output_text(),
                placeholder(key@),
                text@,
            ),
    {
        let mut pattern = String::from_str(":");
        proof {
            reveal_strlit(":");
        }
        pattern.append(key);
        assert(pattern@ == placeholder(key@));
        let replaced = replace_first_occurrence(self.output.as_str(), pattern.as_str(), text);
        self.output = replaced;
    }

    /// The end of a map or struct: the value itself has the empty text.
    pub fn end(&self) -> (s: String)
        ensures
            s@ == Seq::<char>::empty(),
    {
        String::new()
    }
}

/// Fills the path template `path` with `v`: each field of a struct (or entry
/// of a map) replaces the first `:name` of the path by its text, and the
/// elements of a sequence are appended, joined by `-`.
pub fn to_string(path: String, v: &Value) -> (r: Result<String, Error>)
    requires
        supported(false, *v),
    ensures
        r matches Ok(s) && s@ == fill_path(path@, *v),
{
    let mut serializer = Serializer::new(path);
    let _ = serializer.serialize(v);
    Ok(serializer.into_output())
}

} // verus!
