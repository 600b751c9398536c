use vstd::prelude::*;

verus! {

/// A value as the serde data model presents it to a serializer: what a
/// `Serialize` implementation hands over, one variant per kind of call.
///
/// Signed integers of every width arrive as `I64`, unsigned ones as `U64`.
/// A floating-point number arrives as the text of its decimal rendering.
pub enum Value {
    Bool(bool),
    I64(i64),
    U64(u64),
    Float(String),
    Char(char),
    Str(String),
    Bytes(Vec<u8>),
    /// `None` when absent, the contained value when present.
    Optional(Option<Box<Value>>),
    Unit,
    UnitStruct,
    /// A variant without data, by its name.
    UnitVariant(String),
    NewtypeStruct(Box<Value>),
    NewtypeVariant(Box<Value>),
    Sequence(Vec<Value>),
    Tuple(Vec<Value>),
    TupleStruct(Vec<Value>),
    TupleVariant(Vec<Value>),
    /// The keys and values of a map, in the order they are handed over.
    Mapping(Vec<MapCall>),
    /// Fields as (name, value) pairs, in declaration order.
    Struct(Vec<(String, Value)>),
    StructVariant(Vec<(String, Value)>),
}

/// One call that a map makes on the serializer: a key, or a value.
pub enum MapCall {
    Key(Value),
    Value(Value),
}

/// Whether a map key waits for its value after serializing `v`, starting
/// with `pending` telling whether one waits before.
pub open spec fn pending_after(pending: bool, v: Value) -> bool
    decreases v,
{
    match v {
        Value::Optional(Some(b)) => pending_after(pending, *b),
        Value::NewtypeStruct(b) => pending_after(pending, *b),
        Value::NewtypeVariant(b) => pending_after(pending, *b),
        Value::Sequence(xs) => elements_pending(pending, xs@),
        Value::Tuple(xs) => elements_pending(pending, xs@),
        Value::Mapping(cs) => calls_pending(pending, cs@),
        Value::Struct(fs) => fields_pending(pending, fs@),
        _ => pending,
    }
}

/// Whether a key waits after the elements of a sequence.
pub open spec fn elements_pending(pending: bool, s: Seq<Value>) -> bool
    decreases s,
{
    if s.len() == 0 {
        pending
    } else {
        pending_after(elements_pending(pending, s.drop_last()), s.last())
    }
}

/// Whether a key waits after the calls of a map: a key leaves one waiting; a
/// value takes the waiting key, when there is one, before it is serialized.
pub open spec fn calls_pending(pending: bool, s: Seq<MapCall>) -> bool
    decreases s,
{
    if s.len() == 0 {
        pending
    } else {
        let before = calls_pending(pending, s.drop_last());
        match s.last() {
            MapCall::Key(_) => true,
            MapCall::Value(v) => if before {
                pending_after(false, v)
            } else {
                false
            },
        }
    }
}

/// Whether a key waits after the fields of a struct.
pub open spec fn fields_pending(pending: bool, s: Seq<(String, Value)>) -> bool
    decreases s,
{
    if s.len() == 0 {
        pending
    } else {
        pending_after(fields_pending(pending, s.drop_last()), s.last().1)
    }
}

/// The serializer accepts `v` when `pending` tells whether a map key waits:
/// no part of `v` that gets serialized is of a kind that it refuses (bytes,
/// unit, unit structs, absent options, tuple structs, tuple variants and
/// struct variants). A map value with no key before it is not serialized.
pub open spec fn supported(pending: bool, v: Value) -> bool
    decreases v,
{
    match v {
        Value::Bytes(_) => false,
        Value::Optional(None) => false,
        Value::Unit => false,
        Value::UnitStruct => false,
        Value::TupleStruct(_) => false,
        Value::TupleVariant(_) => false,
        Value::StructVariant(_) => false,
        Value::Optional(Some(b)) => supported(pending, *b),
        Value::NewtypeStruct(b) => supported(pending, *b),
        Value::NewtypeVariant(b) => supported(pending, *b),
        Value::Sequence(xs) => elements_supported(pending, xs@),
        Value::Tuple(xs) => elements_supported(pending, xs@),
        Value::Mapping(cs) => calls_supported(pending, cs@),
        Value::Struct(fs) => fields_supported(pending, fs@),
        _ => true,
    }
}

/// Every element is supported in the state that it is serialized in.
pub open spec fn elements_supported(pending: bool, s: Seq<Value>) -> bool
    decreases s,
{
    if s.len() == 0 {
        true
    } else {
        elements_supported(pending, s.drop_last()) && supported(
            elements_pending(pending, s.drop_last()),
            s.last(),
        )
    }
}

/// Every key, and every value that follows a key, is supported in the state
/// that it is serialized in.
pub open spec fn calls_supported(pending: bool, s: Seq<MapCall>) -> bool
    decreases s,
{
    if s.len() == 0 {
        true
    } else {
        let before = calls_pending(pending, s.drop_last());
        calls_supported(pending, s.drop_last()) && match s.last() {
            MapCall::Key(k) => supported(before, k),
            MapCall::Value(v) => before ==> supported(false, v),
        }
    }
}

/// Every field value is supported in the state that it is serialized in.
pub open spec fn fields_supported(pending: bool, s: Seq<(String, Value)>) -> bool
    decreases s,
{
    if s.len() == 0 {
        true
    } else {
        fields_supported(pending, s.drop_last()) && supported(
            fields_pending(pending, s.drop_last()),
            s.last().1,
        )
    }
}

/// A prefix of supported elements is supported.
pub proof fn lemma_elements_prefix(p: bool, s: Seq<Value>, i: int)
    requires
        elements_supported(p, s),
        0 <= i < s.len(),
    ensures
        elements_supported(p, s.take(i + 1)),
    decreases s.len(),
{
    if i + 1 == s.len() {
        assert(s.take(i + 1) =~= s);
    } else {
        lemma_elements_prefix(p, s.drop_last(), i);
        assert(s.drop_last().take(i + 1) =~= s.take(i + 1));
    }
}

/// A prefix of supported map calls is supported.
pub proof fn lemma_calls_prefix(p: bool, s: Seq<MapCall>, i: int)
    requires
        calls_supported(p, s),
        0 <= i < s.len(),
    ensures
        calls_supported(p, s.take(i + 1)),
    decreases s.len(),
{
    if i + 1 == s.len() {
        assert(s.take(i + 1) =~= s);
    } else {
        lemma_calls_prefix(p, s.drop_last(), i);
        assert(s.drop_last().take(i + 1) =~= s.take(i + 1));
    }
}

/// A prefix of supported fields is supported.
pub proof fn lemma_fields_prefix(p: bool, s: Seq<(String, Value)>, i: int)
    requires
        fields_supported(p, s),
        0 <= i < s.len(),
    ensures
        fields_supported(p, s.take(i + 1)),
    decreases s.len(),
{
    if i + 1 == s.len() {
        assert(s.take(i + 1) =~= s);
    } else {
        lemma_fields_prefix(p, s.drop_last(), i);
        assert(s.drop_last().take(i + 1) =~= s.take(i + 1));
    }
}

/// Whether the serializer accepts `v` from its start, when no map key waits.
pub fn is_supported(v: &Value) -> (b: bool)
    ensures
        b == supported(false, *v),
{
    is_supported_from(false, v).0
}

/// Whether the serializer accepts `v` when `pending` tells whether a map key
/// waits, and whether a key waits afterwards.
pub fn is_supported_from(pending: bool, v: &Value) -> (r: (bool, bool))
    ensures
        r.0 == supported(pending, *v),
        r.1 == pending_after(pending, *v),
    decreases v,
{
    match v {
        Value::Bytes(_) => (false, pending),
        Value::Optional(None) => (false, pending),
        Value::Unit => (false, pending),
        Value::UnitStruct => (false, pending),
        Value::TupleStruct(_) => (false, pending),
        Value::TupleVariant(_) => (false, pending),
        Value::StructVariant(_) => (false, pending),
        Value::Optional(Some(b)) => is_supported_from(pending, b),
        Value::NewtypeStruct(b) => is_supported_from(pending, b),
        Value::NewtypeVariant(b) => is_supported_from(pending, b),
        Value::Sequence(xs) => check_elements(pending, xs),
        Value::Tuple(xs) => check_elements(pending, xs),
        Value::Mapping(cs) => check_calls(pending, cs),
        Value::Struct(fs) => check_fields(pending, fs),
        _ => (true, pending),
    }
}

fn check_elements(pending: bool, xs: &Vec<Value>) -> (r: (bool, bool))
    ensures
        r.0 == elements_supported(pending, xs@),
        r.1 == elements_pending(pending, xs@),
    decreases xs,
{
    let mut ok = true;
    let mut p = pending;
    let mut i: usize = 0;
    while i < xs.len()
        invariant
            i <= xs@.len(),
            ok == elements_supported(pending, xs@.take(i as int)),
            p == elements_pending(pending, xs@.take(i as int)),
        decreases xs@.len() - i,
    {
        let (here, after) = is_supported_from(p, &xs[i]);
        assert(xs@.take(i + 1).drop_last() == xs@.take(i as int));
        ok = ok && here;
        p = after;
        i = i + 1;
    }
    assert(xs@.take(xs@.len() as int) == xs@);
    (ok, p)
}

fn check_calls(pending: bool, cs: &Vec<MapCall>) -> (r: (bool, bool))
    ensures
        r.0 == calls_supported(pending, cs@),
        r.1 == calls_pending(pending, cs@),
    decreases cs,
{
    let mut ok = true;
    let mut p = pending;
    let mut i: usize = 0;
    while i < cs.len()
        invariant
            i <= cs@.len(),
            ok == calls_supported(pending, cs@.take(i as int)),
            p == calls_pending(pending, cs@.take(i as int)),
        decreases cs@.len() - i,
    {
        assert(cs@.take(i + 1).drop_last() == cs@.take(i as int));
        match &cs[i] {
            MapCall::Key(k) => {
                let (here, _) = is_supported_from(p, k);
                ok = ok && here;
                p = true;
            },
            MapCall::Value(v) => {
                if p {
                    let (here, after) = is_supported_from(false, v);
                    ok = ok && here;
                    p = after;
                }
            },
        }
        i = i + 1;
    }
    assert(cs@.take(cs@.len() as int) == cs@);
    (ok, p)
}

fn check_fields(pending: bool, fs: &Vec<(String, Value)>) -> (r: (bool, bool))
    ensures
        r.0 == fields_supported(pending, fs@),
        r.1 == fields_pending(pending, fs@),
    decreases fs,
{
    let mut ok = true;
    let mut p = pending;
    let mut i: usize = 0;
    while i < fs.len()
        invariant
            i <= fs@.len(),
            ok == fields_supported(pending, fs@.take(i as int)),
            p == fields_pending(pending, fs@.take(i as int)),
        decreases fs@.len() - i,
    {
        let (here, after) = is_supported_from(p, &fs[i].1);
        assert(fs@.take(i + 1).drop_last() == fs@.take(i as int));
        ok = ok && here;
        p = after;
        i = i + 1;
    }
    assert(fs@.take(fs@.len() as int) == fs@);
    (ok, p)
}

} // verus!
