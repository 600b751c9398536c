use vstd::prelude::*;

use crate::ser::{
    element_step, emit, emit_calls, emit_elements, emit_fields, field_step, fill_path, key_step,
    placeholder, value_step,
};
use crate::text::{
    decimal, digit_char, first_occurrence, is_first_occurrence, occurs_at, replace_first,
    trim_dash,
};
use crate::value::{
    MapCall, Value, calls_pending, calls_supported, elements_pending, elements_supported,
    fields_pending, fields_supported, supported,
};

verus! {

/// The number that a string of decimal digits denotes.
pub open spec fn digits_value(s: Seq<char>) -> int
    decreases s.len(),
{
    if s.len() == 0 {
        0
    } else {
        digits_value(s.drop_last()) * 10 + (s.last() as int - 48)
    }
}

/// `c` is one of the characters `0` to `9`.
pub open spec fn is_digit(c: char) -> bool {
    '0' <= c && c <= '9'
}

/// The decimal rendering of `n` is a non-empty string of digits that denotes
/// `n`, and it starts with `0` only when it is `0` itself.
pub proof fn decimal_denotes_its_number(n: nat)
    ensures
        decimal(n).len() >= 1,
        forall|i: int| 0 <= i < decimal(n).len() ==> is_digit(#[trigger] decimal(n)[i]),
        digits_value(decimal(n)) == n,
        decimal(n)[0] == '0' ==> n == 0,
    decreases n,
{
    if n < 10 {
        assert(decimal(n).drop_last() =~= Seq::<char>::empty());
        assert(digit_char(n as int) as int == n + 48);
        assert(decimal(n).last() == digit_char(n as int));
        assert(digits_value(decimal(n).drop_last()) == 0);
    } else {
        assert(digit_char((n % 10) as int) as int == n % 10 + 48);
        decimal_denotes_its_number(n / 10);
        let d = decimal(n);
        assert(d.drop_last() =~= decimal(n / 10));
        assert(d.last() == digit_char((n % 10) as int));
        assert(digits_value(d) == digits_value(decimal(n / 10)) * 10 + (n % 10));
        assert((n / 10) * 10 + n % 10 == n);
        assert(d[0] == decimal(n / 10)[0]);
        assert forall|i: int| 0 <= i < d.len() implies is_digit(#[trigger] d[i]) by {
            if i < d.len() - 1 {
                assert(d[i] == decimal(n / 10)[i]);
            }
        }
    }
}

/// The number that a rendering with an optional leading `-` denotes.
pub open spec fn signed_digits_value(s: Seq<char>) -> int {
    if s.len() > 0 && s[0] == '-' {
        -digits_value(s.skip(1))
    } else {
        digits_value(s)
    }
}

/// Every character of `s` is a digit.
pub open spec fn all_digits(s: Seq<char>) -> bool {
    forall|i: int| 0 <= i < s.len() ==> is_digit(#[trigger] s[i])
}

/// An unsigned integer, whatever its size, is handed over as the full
/// decimal rendering of its value: a non-empty string of digits, without a
/// leading zero, that denotes the number. The path and the waiting key stay
/// as they are.
pub proof fn unsigned_integer_renders_its_value(out: Seq<char>, key: Option<Seq<char>>, u: u64)
    ensures
        emit(out, key, Value::U64(u)).0 == out,
        emit(out, key, Value::U64(u)).1 == key,
        emit(out, key, Value::U64(u)).2.len() >= 1,
        all_digits(emit(out, key, Value::U64(u)).2),
        digits_value(emit(out, key, Value::U64(u)).2) == u,
        emit(out, key, Value::U64(u)).2[0] == '0' ==> u == 0,
{
    decimal_denotes_its_number(u as nat);
}

/// A signed integer, whatever its size, is handed over as `-` when it is
/// negative, followed by the digits of its magnitude without a leading zero;
/// the text denotes the number. The path and the waiting key stay as they
/// are.
pub proof fn signed_integer_renders_its_value(out: Seq<char>, key: Option<Seq<char>>, i: i64)
    ensures
        emit(out, key, Value::I64(i)).0 == out,
        emit(out, key, Value::I64(i)).1 == key,
        signed_digits_value(emit(out, key, Value::I64(i)).2) == i,
        i < 0 ==> emit(out, key, Value::I64(i)).2[0] == '-',
        i < 0 ==> emit(out, key, Value::I64(i)).2.len() >= 2,
        i < 0 ==> all_digits(emit(out, key, Value::I64(i)).2.skip(1)),
        i < 0 ==> emit(out, key, Value::I64(i)).2[1] != '0',
        i >= 0 ==> emit(out, key, Value::I64(i)).2.len() >= 1,
        i >= 0 ==> all_digits(emit(out, key, Value::I64(i)).2),
        i >= 0 ==> (emit(out, key, Value::I64(i)).2[0] == '0' ==> i == 0),
{
    let t = emit(out, key, Value::I64(i)).2;
    if i < 0 {
        let d = decimal((-i) as nat);
        decimal_denotes_its_number((-i) as nat);
        assert(t == seq!['-'] + d);
        assert(t.skip(1) =~= d);
        assert(t[1] == d[0]);
    } else {
        decimal_denotes_its_number(i as nat);
        let d = decimal(i as nat);
        assert(t == d);
        if d.len() > 0 && d[0] == '-' {
            assert(is_digit(d[0]));
        }
    }
}

/// Floats, strings, characters, unit variants and booleans are handed over
/// as exactly their text: the float's rendering as given, the string itself,
/// the character alone, the variant's name, `true` or `false`. The path and
/// the waiting key stay as they are.
pub proof fn texts_render_as_given(
    out: Seq<char>,
    key: Option<Seq<char>>,
    s: String,
    c: char,
    b: bool,
)
    ensures
        emit(out, key, Value::Float(s)) == (out, key, s@),
        emit(out, key, Value::Str(s)) == (out, key, s@),
        emit(out, key, Value::UnitVariant(s)) == (out, key, s@),
        emit(out, key, Value::Char(c)) == (out, key, seq![c]),
        emit(out, key, Value::Bool(b)) == (out, key, if b {
            "true"@
        } else {
            "false"@
        }),
{
}

/// `v` holds no value of a kind that the serializer refuses, counting every
/// part of it, map values without a key included.
pub open spec fn free_of_refused(v: Value) -> bool
    decreases v, 0int,
{
    match v {
        Value::Bytes(_) => false,
        Value::Optional(None) => false,
        Value::Unit => false,
        Value::UnitStruct => false,
        Value::TupleStruct(_) => false,
        Value::TupleVariant(_) => false,
        Value::StructVariant(_) => false,
        Value::Optional(Some(b)) => free_of_refused(*b),
        Value::NewtypeStruct(b) => free_of_refused(*b),
        Value::NewtypeVariant(b) => free_of_refused(*b),
        Value::Sequence(xs) => all_free_of_refused(xs@),
        Value::Tuple(xs) => all_free_of_refused(xs@),
        Value::Mapping(cs) => calls_free_of_refused(cs@),
        Value::Struct(fs) => fields_free_of_refused(fs@),
        _ => true,
    }
}

/// No element holds a refused kind.
pub open spec fn all_free_of_refused(s: Seq<Value>) -> bool
    decreases s, 0int,
{
    if s.len() == 0 {
        true
    } else {
        all_free_of_refused(s.drop_last()) && free_of_refused(s.last())
    }
}

/// No key or value of the map holds a refused kind.
pub open spec fn calls_free_of_refused(s: Seq<MapCall>) -> bool
    decreases s, 0int,
{
    if s.len() == 0 {
        true
    } else {
        calls_free_of_refused(s.drop_last()) && match s.last() {
            MapCall::Key(k) => free_of_refused(k),
            MapCall::Value(v) => free_of_refused(v),
        }
    }
}

/// No field value holds a refused kind.
pub open spec fn fields_free_of_refused(s: Seq<(String, Value)>) -> bool
    decreases s, 0int,
{
    if s.len() == 0 {
        true
    } else {
        fields_free_of_refused(s.drop_last()) && free_of_refused(s.last().1)
    }
}

proof fn lemma_free_supported(p: bool, v: Value)
    requires
        free_of_refused(v),
    ensures
        supported(p, v),
    decreases v, 1int,
{
    match v {
        Value::Optional(Some(b)) => lemma_free_supported(p, *b),
        Value::NewtypeStruct(b) => lemma_free_supported(p, *b),
        Value::NewtypeVariant(b) => lemma_free_supported(p, *b),
        Value::Sequence(xs) => lemma_free_elements(p, xs@),
        Value::Tuple(xs) => lemma_free_elements(p, xs@),
        Value::Mapping(cs) => lemma_free_calls(p, cs@),
        Value::Struct(fs) => lemma_free_fields(p, fs@),
        _ => {},
    }
}

proof fn lemma_free_elements(p: bool, s: Seq<Value>)
    requires
        all_free_of_refused(s),
    ensures
        elements_supported(p, s),
    decreases s, 1int,
{
    if s.len() > 0 {
        lemma_free_elements(p, s.drop_last());
        lemma_free_supported(elements_pending(p, s.drop_last()), s.last());
    }
}

proof fn lemma_free_calls(p: bool, s: Seq<MapCall>)
    requires
        calls_free_of_refused(s),
    ensures
        calls_supported(p, s),
    decreases s, 1int,
{
    if s.len() > 0 {
        lemma_free_calls(p, s.drop_last());
        match s.last() {
            MapCall::Key(k) => lemma_free_supported(calls_pending(p, s.drop_last()), k),
            MapCall::Value(v) => lemma_free_supported(false, v),
        }
    }
}

proof fn lemma_free_fields(p: bool, s: Seq<(String, Value)>)
    requires
        fields_free_of_refused(s),
    ensures
        fields_supported(p, s),
    decreases s, 1int,
{
    if s.len() > 0 {
        lemma_free_fields(p, s.drop_last());
        lemma_free_supported(fields_pending(p, s.drop_last()), s.last().1);
    }
}

/// Every value that holds no refused kind anywhere (bytes, unit, unit
/// struct, `None`, tuple struct, tuple variant, struct variant) is accepted,
/// whether a map key waits or not; each refused kind itself is refused; and
/// `Some`, newtype structs and newtype variants are accepted exactly when
/// what they hold is.
pub proof fn accepted_values(p: bool, v: Value, b: Box<Value>)
    ensures
        free_of_refused(v) ==> supported(p, v),
        !supported(p, Value::Unit),
        !supported(p, Value::UnitStruct),
        !supported(p, Value::Optional(None)),
        forall|bytes: Vec<u8>| !#[trigger] supported(p, Value::Bytes(bytes)),
        forall|xs: Vec<Value>| !#[trigger] supported(p, Value::TupleStruct(xs)),
        forall|xs: Vec<Value>| !#[trigger] supported(p, Value::TupleVariant(xs)),
        forall|fs: Vec<(String, Value)>| !#[trigger] supported(p, Value::StructVariant(fs)),
        supported(p, Value::Optional(Some(b))) == supported(p, *b),
        supported(p, Value::NewtypeStruct(b)) == supported(p, *b),
        supported(p, Value::NewtypeVariant(b)) == supported(p, *b),
{
    if free_of_refused(v) {
        lemma_free_supported(p, v);
    }
}

/// `v` is a scalar: its serialization returns a text and changes neither the
/// path nor the waiting key.
pub open spec fn is_scalar(v: Value) -> bool {
    match v {
        Value::Bool(_) => true,
        Value::I64(_) => true,
        Value::U64(_) => true,
        Value::Float(_) => true,
        Value::Char(_) => true,
        Value::Str(_) => true,
        Value::UnitVariant(_) => true,
        _ => false,
    }
}

/// The text of a scalar.
pub open spec fn scalar_text(v: Value) -> Seq<char> {
    emit(Seq::empty(), None, v).2
}

/// Texts joined by `-`.
pub open spec fn join_hyphen(s: Seq<Seq<char>>) -> Seq<char>
    decreases s.len(),
{
    if s.len() == 0 {
        Seq::empty()
    } else if s.len() == 1 {
        s[0]
    } else {
        join_hyphen(s.drop_last()) + seq!['-'] + s.last()
    }
}

/// The texts of a sequence of scalars.
pub open spec fn scalar_texts(s: Seq<Value>) -> Seq<Seq<char>> {
    s.map_values(|v: Value| scalar_text(v))
}

/// A scalar changes neither the path nor the waiting key, whatever they are.
pub proof fn scalar_changes_nothing(out: Seq<char>, key: Option<Seq<char>>, v: Value)
    requires
        is_scalar(v),
    ensures
        emit(out, key, v) == (out, key, scalar_text(v)),
{
}

/// `Some(x)`, a newtype struct around `x` and a newtype variant around `x`
/// serialize exactly as `x` does, in every state.
pub proof fn wrappers_are_transparent(out: Seq<char>, key: Option<Seq<char>>, b: Box<Value>)
    ensures
        emit(out, key, Value::Optional(Some(b))) == emit(out, key, *b),
        emit(out, key, Value::NewtypeStruct(b)) == emit(out, key, *b),
        emit(out, key, Value::NewtypeVariant(b)) == emit(out, key, *b),
{
}

/// `v` changes neither the path nor the waiting key, whatever they are, and
/// returns the same text in every state.
pub open spec fn path_neutral(v: Value) -> bool {
    forall|o: Seq<char>, k: Option<Seq<char>>| #[trigger]
        emit(o, k, v) == (o, k, scalar_text(v))
}

/// Scalars are path-neutral, and `Some`, newtype structs and newtype variants
/// around a path-neutral value are too.
pub proof fn path_neutral_values(v: Value, b: Box<Value>)
    ensures
        is_scalar(v) ==> path_neutral(v),
        path_neutral(*b) ==> path_neutral(Value::Optional(Some(b))),
        path_neutral(*b) ==> path_neutral(Value::NewtypeStruct(b)),
        path_neutral(*b) ==> path_neutral(Value::NewtypeVariant(b)),
{
    if path_neutral(*b) {
        assert forall|o: Seq<char>, k: Option<Seq<char>>|
            #[trigger] emit(o, k, Value::NewtypeStruct(b)) == (o, k, scalar_text(Value::NewtypeStruct(b))) by {
            assert(emit(o, k, *b) == (o, k, scalar_text(*b)));
            assert(emit(Seq::empty(), None, *b) == (Seq::<char>::empty(), None::<Seq<char>>, scalar_text(*b)));
        }
        assert forall|o: Seq<char>, k: Option<Seq<char>>|
            #[trigger] emit(o, k, Value::NewtypeVariant(b)) == (o, k, scalar_text(Value::NewtypeVariant(b))) by {
            assert(emit(o, k, *b) == (o, k, scalar_text(*b)));
            assert(emit(Seq::empty(), None, *b) == (Seq::<char>::empty(), None::<Seq<char>>, scalar_text(*b)));
        }
        assert forall|o: Seq<char>, k: Option<Seq<char>>|
            #[trigger] emit(o, k, Value::Optional(Some(b))) == (o, k, scalar_text(Value::Optional(Some(b)))) by {
            assert(emit(o, k, *b) == (o, k, scalar_text(*b)));
            assert(emit(Seq::empty(), None, *b) == (Seq::<char>::empty(), None::<Seq<char>>, scalar_text(*b)));
        }
    }
}

/// An element of a sequence, whatever it is, appends its own text and then
/// `-` to the path that serializing it leaves, and keeps the key that it
/// leaves waiting.
pub proof fn element_appends_its_text(out: Seq<char>, key: Option<Seq<char>>, v: Value)
    ensures
        element_step(out, key, v) == (
            emit(out, key, v).0 + emit(out, key, v).2 + seq!['-'],
            emit(out, key, v).1,
        ),
{
}

proof fn lemma_elements_of_neutral(out: Seq<char>, key: Option<Seq<char>>, s: Seq<Value>)
    requires
        s.len() > 0,
        forall|i: int| 0 <= i < s.len() ==> path_neutral(#[trigger] s[i]),
    ensures
        emit_elements(out, key, s) == (out + join_hyphen(scalar_texts(s)) + seq!['-'], key),
    decreases s.len(),
{
    let (before, k) = emit_elements(out, key, s.drop_last());
    assert(emit_elements(out, key, s) == element_step(before, k, s.last()));
    assert(path_neutral(s[s.len() - 1]));
    assert(emit(before, k, s.last()) == (before, k, scalar_text(s.last())));
    assert(element_step(before, k, s.last()) == (before + scalar_text(s.last()) + seq!['-'], k));
    assert(scalar_texts(s).drop_last() =~= scalar_texts(s.drop_last()));
    if s.len() == 1 {
        assert(s.drop_last().len() == 0);
    } else {
        lemma_elements_of_neutral(out, key, s.drop_last());
    }
}

/// Path-neutral elements (scalars, and `Some` or newtypes around them),
/// followed by the end of the sequence, append their texts joined by single
/// `-`, in any state, and keep the waiting key. A sequence (or tuple) of them
/// does the same; an empty one only drops a trailing `-` from the path.
pub proof fn sequence_appends_texts_joined_by_hyphen(
    out: Seq<char>,
    key: Option<Seq<char>>,
    xs: Vec<Value>,
)
    requires
        forall|i: int| 0 <= i < xs@.len() ==> path_neutral(#[trigger] xs@[i]),
    ensures
        xs@.len() > 0 ==> trim_dash(emit_elements(out, key, xs@).0) == out + join_hyphen(
            scalar_texts(xs@),
        ),
        xs@.len() > 0 ==> emit(out, key, Value::Sequence(xs)) == (
            out + join_hyphen(scalar_texts(xs@)),
            key,
            Seq::<char>::empty(),
        ),
        xs@.len() > 0 ==> emit(out, key, Value::Tuple(xs)) == (
            out + join_hyphen(scalar_texts(xs@)),
            key,
            Seq::<char>::empty(),
        ),
        xs@.len() == 0 ==> emit(out, key, Value::Sequence(xs)) == (
            trim_dash(out),
            key,
            Seq::<char>::empty(),
        ),
{
    if xs@.len() == 0 {
        assert(emit_elements(out, key, xs@) == (out, key));
    } else {
        lemma_elements_of_neutral(out, key, xs@);
        let joined = out + join_hyphen(scalar_texts(xs@));
        assert((joined + seq!['-']).drop_last() =~= joined);
    }
}

/// A map key and then its value fill the path as a struct field of the
/// key's name does, from any state; the map leaves no key waiting, the field
/// keeps the waiting key as it was.
pub proof fn key_then_value_fills_like_field(
    out: Seq<char>,
    key: Option<Seq<char>>,
    k: Value,
    v: Value,
)
    requires
        is_scalar(k),
        is_scalar(v),
    ensures
        key_step(out, key, k) == (out, Some(scalar_text(k))),
        value_step(out, Some(scalar_text(k)), v) == (
            replace_first(out, placeholder(scalar_text(k)), scalar_text(v)),
            None::<Seq<char>>,
        ),
        field_step(out, key, scalar_text(k), v) == (
            replace_first(out, placeholder(scalar_text(k)), scalar_text(v)),
            key,
        ),
{
    scalar_changes_nothing(out, key, k);
    scalar_changes_nothing(out, None, v);
    scalar_changes_nothing(out, key, v);
}

/// An element appends its text and `-` in any state, and a key serialized
/// while another waits takes its place.
pub proof fn steps_in_any_state(out: Seq<char>, key: Option<Seq<char>>, v: Value)
    requires
        is_scalar(v),
    ensures
        element_step(out, key, v) == (out + scalar_text(v) + seq!['-'], key),
        key_step(out, key, v) == (out, Some(scalar_text(v))),
{
    scalar_changes_nothing(out, key, v);
}

/// A pattern that starts with a character absent from `s` does not occur in
/// `s`, so replacing it changes nothing.
proof fn lemma_replace_absent_head(s: Seq<char>, p: Seq<char>, t: Seq<char>)
    requires
        p.len() > 0,
        !s.contains(p[0]),
    ensures
        replace_first(s, p, t) == s,
{
    assert forall|i: int| !is_first_occurrence(s, p, i) by {
        if occurs_at(s, p, i) {
            assert(s.subrange(i, i + p.len())[0] == s[i]);
        }
    }
}

/// Replacing the first occurrence of a pattern that does not occur leaves
/// the text as it is.
pub proof fn replace_absent_is_identity(s: Seq<char>, p: Seq<char>, t: Seq<char>)
    requires
        forall|i: int| !occurs_at(s, p, i),
    ensures
        first_occurrence(s, p) is None,
        replace_first(s, p, t) == s,
{
}

/// When `p` first occurs in `s` at `i`, the replacement keeps what comes
/// before `i`, puts `t` in place of `p`, and keeps what follows.
pub proof fn replace_at_first_occurrence(s: Seq<char>, p: Seq<char>, t: Seq<char>, i: int)
    requires
        is_first_occurrence(s, p, i),
    ensures
        first_occurrence(s, p) == Some(i),
        replace_first(s, p, t) == s.subrange(0, i) + t + s.subrange(i + p.len(), s.len() as int),
        replace_first(s, p, t).len() == s.len() - p.len() + t.len(),
{
    let c = choose|c: int| is_first_occurrence(s, p, c);
    assert(c == i) by {
        if c < i {
            assert(!occurs_at(s, p, c));
        } else if c > i {
            assert(!occurs_at(s, p, i));
        }
    }
}

proof fn lemma_first_after_plain_prefix(pre: Seq<char>, name: Seq<char>, post: Seq<char>)
    requires
        !pre.contains(':'),
    ensures
        is_first_occurrence(pre + seq![':'] + name + post, seq![':'] + name, pre.len() as int),
{
    let s = pre + seq![':'] + name + post;
    let p = seq![':'] + name;
    assert(s.subrange(pre.len() as int, (pre.len() + p.len()) as int) =~= p);
    assert forall|j: int| 0 <= j < pre.len() implies !occurs_at(s, p, j) by {
        if occurs_at(s, p, j) {
            assert(s.subrange(j, j + p.len())[0] == s[j]);
            assert(s[j] == pre[j]);
        }
    }
}

/// A struct field, or a map key followed by its value, puts the value's text
/// in place of the first `:name` of the path and keeps everything around it:
/// a path `pre:namepost` whose `pre` has no `:` becomes `pre`, the text, then
/// `post`.
pub proof fn placeholder_is_filled(
    pre: Seq<char>,
    name: String,
    post: Seq<char>,
    key: Option<Seq<char>>,
    v: Value,
)
    requires
        !pre.contains(':'),
        path_neutral(v),
    ensures
        field_step(pre + seq![':'] + name@ + post, key, name@, v) == (
            pre + scalar_text(v) + post,
            key,
        ),
        value_step(
            key_step(pre + seq![':'] + name@ + post, key, Value::Str(name)).0,
            key_step(pre + seq![':'] + name@ + post, key, Value::Str(name)).1,
            v,
        ) == (pre + scalar_text(v) + post, None::<Seq<char>>),
{
    let s = pre + seq![':'] + name@ + post;
    let p = seq![':'] + name@;
    lemma_first_after_plain_prefix(pre, name@, post);
    replace_at_first_occurrence(s, p, scalar_text(v), pre.len() as int);
    assert(emit(s, key, v) == (s, key, scalar_text(v)));
    assert(emit(s, None, v) == (s, None::<Seq<char>>, scalar_text(v)));
    assert(s.subrange(0, pre.len() as int) =~= pre);
    assert(s.subrange((pre.len() + p.len()) as int, s.len() as int) =~= post);
    assert(placeholder(name@) == p);
    assert(emit(s, key, Value::Str(name)) == (s, key, name@));
}

proof fn lemma_fields_keep_plain_path(
    out: Seq<char>,
    key: Option<Seq<char>>,
    fs: Seq<(String, Value)>,
)
    requires
        !out.contains(':'),
        forall|i: int| 0 <= i < fs.len() ==> is_scalar(#[trigger] fs[i].1),
    ensures
        emit_fields(out, key, fs) == (out, key),
    decreases fs.len(),
{
    if fs.len() > 0 {
        lemma_fields_keep_plain_path(out, key, fs.drop_last());
        assert(emit_fields(out, key, fs) == field_step(out, key, fs.last().0@, fs.last().1));
        scalar_changes_nothing(out, key, fs.last().1);
        lemma_replace_absent_head(out, placeholder(fs.last().0@), scalar_text(fs.last().1));
        assert(field_step(out, key, fs.last().0@, fs.last().1) == (out, key));
    }
}

/// Every key and value of the map is a scalar.
pub open spec fn scalar_calls(cs: Seq<MapCall>) -> bool {
    forall|i: int|
        0 <= i < cs.len() ==> match #[trigger] cs[i] {
            MapCall::Key(k) => is_scalar(k),
            MapCall::Value(v) => is_scalar(v),
        }
}

proof fn lemma_calls_keep_plain_path(out: Seq<char>, key: Option<Seq<char>>, cs: Seq<MapCall>)
    requires
        !out.contains(':'),
        scalar_calls(cs),
    ensures
        emit_calls(out, key, cs).0 == out,
    decreases cs.len(),
{
    if cs.len() > 0 {
        assert(scalar_calls(cs.drop_last()));
        lemma_calls_keep_plain_path(out, key, cs.drop_last());
        let k = emit_calls(out, key, cs.drop_last()).1;
        assert(cs.last() == cs[cs.len() - 1]);
        match cs.last() {
            MapCall::Key(kv) => {
                assert(emit_calls(out, key, cs) == key_step(out, k, kv));
                scalar_changes_nothing(out, k, kv);
                assert(key_step(out, k, kv).0 == out);
            },
            MapCall::Value(v) => {
                assert(emit_calls(out, key, cs) == value_step(out, k, v));
                scalar_changes_nothing(out, None, v);
                if let Some(name) = k {
                    lemma_replace_absent_head(out, placeholder(name), scalar_text(v));
                }
                assert(value_step(out, k, v).0 == out);
            },
        }
    }
}

/// A path without any `:` has no placeholder: a struct or map of scalars
/// leaves it as it is, in any state.
pub proof fn plain_path_is_kept(
    out: Seq<char>,
    key: Option<Seq<char>>,
    fs: Vec<(String, Value)>,
    cs: Vec<MapCall>,
)
    requires
        !out.contains(':'),
        forall|i: int| 0 <= i < fs@.len() ==> is_scalar(#[trigger] fs@[i].1),
        scalar_calls(cs@),
    ensures
        emit(out, key, Value::Struct(fs)) == (out, key, Seq::<char>::empty()),
        emit(out, key, Value::Mapping(cs)).0 == out,
{
    lemma_fields_keep_plain_path(out, key, fs@);
    lemma_calls_keep_plain_path(out, key, cs@);
}

/// Serializing the fields `a + b` is serializing `a`, then `b`.
pub proof fn fields_concatenate(
    out: Seq<char>,
    key: Option<Seq<char>>,
    a: Seq<(String, Value)>,
    b: Seq<(String, Value)>,
)
    ensures
        emit_fields(out, key, a + b) == emit_fields(
            emit_fields(out, key, a).0,
            emit_fields(out, key, a).1,
            b,
        ),
    decreases b.len(),
{
    if b.len() == 0 {
        assert(a + b =~= a);
    } else {
        fields_concatenate(out, key, a, b.drop_last());
        assert((a + b).drop_last() =~= a + b.drop_last());
        assert((a + b).last() == b.last());
    }
}

/// The calls that a map makes for the fields `fs`: each name as a string
/// key, then its value.
pub open spec fn field_calls(fs: Seq<(String, Value)>) -> Seq<MapCall>
    decreases fs.len(),
{
    if fs.len() == 0 {
        Seq::empty()
    } else {
        field_calls(fs.drop_last()) + seq![
            MapCall::Key(Value::Str(fs.last().0)),
            MapCall::Value(fs.last().1),
        ]
    }
}

proof fn lemma_map_of_fields(out: Seq<char>, fs: Seq<(String, Value)>)
    requires
        forall|i: int| 0 <= i < fs.len() ==> is_scalar(#[trigger] fs[i].1),
    ensures
        emit_calls(out, None, field_calls(fs)) == emit_fields(out, None, fs),
        emit_fields(out, None, fs).1 is None,
    decreases fs.len(),
{
    if fs.len() > 0 {
        lemma_map_of_fields(out, fs.drop_last());
        let cs = field_calls(fs);
        let (o, k) = emit_fields(out, None, fs.drop_last());
        assert(cs.drop_last().drop_last() =~= field_calls(fs.drop_last()));
        assert(cs.last() == MapCall::Value(fs.last().1));
        assert(cs.drop_last().last() == MapCall::Key(Value::Str(fs.last().0)));
        let name = fs.last().0@;
        let v = fs.last().1;
        assert(emit_calls(out, None, cs.drop_last()) == key_step(o, None, Value::Str(fs.last().0)));
        assert(emit(o, None, Value::Str(fs.last().0)) == (o, None::<Seq<char>>, name));
        assert(key_step(o, None, Value::Str(fs.last().0)) == (o, Some(name)));
        assert(emit_calls(out, None, cs) == value_step(o, Some(name), v));
        scalar_changes_nothing(o, None, v);
        assert(value_step(o, Some(name), v) == (
            replace_first(o, placeholder(name), scalar_text(v)),
            None::<Seq<char>>,
        ));
        assert(emit_fields(out, None, fs) == field_step(o, None, name, v));
        assert(field_step(o, None, name, v) == (
            replace_first(o, placeholder(name), scalar_text(v)),
            None::<Seq<char>>,
        ));
    }
}

/// A struct of scalar fields fills the path as the map of its field names to
/// its field values does.
pub proof fn struct_fills_like_map_of_its_fields(
    out: Seq<char>,
    fs: Vec<(String, Value)>,
    cs: Vec<MapCall>,
)
    requires
        forall|i: int| 0 <= i < fs@.len() ==> is_scalar(#[trigger] fs@[i].1),
        cs@ == field_calls(fs@),
    ensures
        fill_path(out, Value::Struct(fs)) == fill_path(out, Value::Mapping(cs)),
{
    lemma_map_of_fields(out, fs@);
}

/// A struct held in the field `j` fills the path as if its fields stood in
/// the outer struct in place of that field, as long as the `:name` of the
/// holding field does not occur once the inner fields have filled the path.
pub proof fn nested_struct_flattens(
    out: Seq<char>,
    key: Option<Seq<char>>,
    outer: Vec<(String, Value)>,
    j: int,
    inner: Vec<(String, Value)>,
    flat: Vec<(String, Value)>,
)
    requires
        0 <= j < outer@.len(),
        outer@[j].1 == Value::Struct(inner),
        flat@ == outer@.take(j) + inner@ + outer@.skip(j + 1),
        forall|i: int|
            !occurs_at(
                emit_fields(
                    emit_fields(out, key, outer@.take(j)).0,
                    emit_fields(out, key, outer@.take(j)).1,
                    inner@,
                ).0,
                placeholder(outer@[j].0@),
                i,
            ),
    ensures
        emit(out, key, Value::Struct(outer)) == emit(out, key, Value::Struct(flat)),
{
    let pre = outer@.take(j);
    let one = seq![outer@[j]];
    let post = outer@.skip(j + 1);
    let (o1, k1) = emit_fields(out, key, pre);
    let mid = emit_fields(o1, k1, inner@);
    assert(outer@ =~= pre + one + post);
    fields_concatenate(out, key, pre + one, post);
    fields_concatenate(out, key, pre, one);
    assert(one.drop_last() =~= Seq::<(String, Value)>::empty());
    assert(emit_fields(o1, k1, one.drop_last()) == (o1, k1));
    assert(emit(o1, k1, outer@[j].1) == (mid.0, mid.1, Seq::<char>::empty()));
    replace_absent_is_identity(mid.0, placeholder(outer@[j].0@), Seq::empty());
    assert(one.last() == outer@[j]);
    assert(emit_fields(o1, k1, one) == field_step(o1, k1, outer@[j].0@, outer@[j].1));
    assert(field_step(o1, k1, outer@[j].0@, outer@[j].1) == mid);
    assert(emit_fields(o1, k1, one) == mid);
    fields_concatenate(out, key, pre + inner@, post);
    fields_concatenate(out, key, pre, inner@);
    assert(flat@ =~= (pre + inner@) + post);
    assert(outer@ =~= (pre + one) + post);
}

/// With `#[serde(flatten)]`, a struct holding a nested struct is handed over
/// as the map of all the fields, the nested ones in place of the field that
/// holds them. Without it the path comes out the same: the nested fields
/// fill placeholders by their own names.
pub proof fn nested_struct_fills_like_flattened_map(
    out: Seq<char>,
    outer: Vec<(String, Value)>,
    j: int,
    inner: Vec<(String, Value)>,
    flat: Vec<(String, Value)>,
    flattened: Vec<MapCall>,
)
    requires
        0 <= j < outer@.len(),
        outer@[j].1 == Value::Struct(inner),
        flat@ == outer@.take(j) + inner@ + outer@.skip(j + 1),
        forall|i: int| 0 <= i < flat@.len() ==> is_scalar(#[trigger] flat@[i].1),
        flattened@ == field_calls(flat@),
        forall|i: int|
            !occurs_at(
                emit_fields(emit_fields(out, None, outer@.take(j)).0, None, inner@).0,
                placeholder(outer@[j].0@),
                i,
            ),
    ensures
        fill_path(out, Value::Struct(outer)) == fill_path(out, Value::Mapping(flattened)),
{
    let pre = outer@.take(j);
    assert forall|i: int| 0 <= i < pre.len() implies is_scalar(#[trigger] pre[i].1) by {
        assert(pre[i] == flat@[i]);
    }
    lemma_map_of_fields(out, pre);
    nested_struct_flattens(out, None, outer, j, inner, flat);
    lemma_map_of_fields(out, flat@);
}

} // verus!
