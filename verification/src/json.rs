//! Reading single values out of JSON text, addressed by JSON Pointer.
use vstd::prelude::*;

verus! {

/// A JSON value as far as the readers look into it: scalars in full,
/// arrays and objects by kind only.
pub enum JsonValue {
    Null,
    Bool(bool),
    /// A number, with what `as_i64` and `as_u64` give for it.
    Number(Option<i64>, Option<u64>),
    Str(String),
    Array,
    Object,
}

/// The mathematical form of a [`JsonValue`].
pub enum JsonLeaf {
    Null,
    Bool(bool),
    Number(Option<i64>, Option<u64>),
    Str(Seq<char>),
    Array,
    Object,
}

impl View for JsonValue {
    type V = JsonLeaf;

    open spec fn view(&self) -> JsonLeaf {
        match self {
            JsonValue::Null => JsonLeaf::Null,
            JsonValue::Bool(b) => JsonLeaf::Bool(*b),
            JsonValue::Number(i, u) => JsonLeaf::Number(*i, *u),
            JsonValue::Str(s) => JsonLeaf::Str(s@),
            JsonValue::Array => JsonLeaf::Array,
            JsonValue::Object => JsonLeaf::Object,
        }
    }
}

/// What `serde_json::from_str::<Value>(text)` followed by `.pointer(pointer)`
/// finds: `None` when the text is not JSON or nothing is at the pointer.
pub uninterp spec fn json_at(text: Seq<char>, pointer: Seq<char>) -> Option<JsonLeaf>;

/// The keys of the object that `serde_json::from_str::<Value>(text)` has at
/// `pointer`, in the map's order: `None` when the text is not JSON or the
/// value there is missing or not an object.
pub uninterp spec fn json_keys_at(text: Seq<char>, pointer: Seq<char>) -> Option<Seq<Seq<char>>>;

/// The value at `pointer` in the JSON text `text`
/// (`serde_json::from_str::<serde_json::Value>` and `Value::pointer`).
#[verifier::external_body]
pub(crate) fn read_json_at(text: &str, pointer: &str) -> (r: Option<JsonValue>)
    ensures
        (match r { Some(v) => Some(v@), None => None::<JsonLeaf> }) == json_at(text@, pointer@),
{
    let root: serde_json::Value = serde_json::from_str(text).ok()?;
    Some(match root.pointer(pointer)? {
        serde_json::Value::Null => JsonValue::Null,
        serde_json::Value::Bool(b) => JsonValue::Bool(*b),
        serde_json::Value::Number(n) => JsonValue::Number(n.as_i64(), n.as_u64()),
        serde_json::Value::String(s) => JsonValue::Str(s.clone()),
        serde_json::Value::Array(_) => JsonValue::Array,
        serde_json::Value::Object(_) => JsonValue::Object,
    })
}

/// The keys of the object at `pointer` in the JSON text `text`
/// (`serde_json::from_str::<serde_json::Value>`, `Value::pointer`,
/// `Value::as_object` and the map's keys).
#[verifier::external_body]
pub(crate) fn read_json_keys(text: &str, pointer: &str) -> (r: Option<Vec<String>>)
    ensures
        (match r { Some(v) => Some(crate::text::views(v@)), None => None::<Seq<Seq<char>>> })
            == json_keys_at(text@, pointer@),
{
    let root: serde_json::Value = serde_json::from_str(text).ok()?;
    Some(root.pointer(pointer)?.as_object()?.keys().cloned().collect())
}

/// A key written as one JSON Pointer token: `~` as `~0` and `/` as `~1`.
pub open spec fn pointer_token(key: Seq<char>) -> Seq<char>
    decreases key.len(),
{
    if key.len() == 0 {
        seq![]
    } else {
        pointer_token(key.drop_last()) + (if key.last() == '~' {
            seq!['~', '0']
        } else if key.last() == '/' {
            seq!['~', '1']
        } else {
            seq![key.last()]
        })
    }
}

/// Appends `key` to `out` as one JSON Pointer token.
pub fn push_pointer_token(out: &mut String, key: &str)
    ensures
        final(out)@ == old(out)@ + pointer_token(key@),
{
    let cs = crate::text::chars_of(key);
    let mut i: usize = 0;
    assert(cs@.take(0) == Seq::<char>::empty());
    assert(old(out)@ + Seq::<char>::empty() == old(out)@);
    while i < cs.len()
        invariant
            cs@ == key@,
            i <= cs.len(),
            out@ == old(out)@ + pointer_token(cs@.take(i as int)),
        decreases cs.len() - i,
    {
        let c = cs[i];
        assert(cs@.take(i + 1).drop_last() == cs@.take(i as int));
        assert(cs@.take(i + 1).last() == c);
        let ghost before = out@;
        if c == '~' {
            crate::text::push_char(out, '~');
            crate::text::push_char(out, '0');
            assert(before.push('~').push('0') == before + seq!['~', '0']);
        } else if c == '/' {
            crate::text::push_char(out, '~');
            crate::text::push_char(out, '1');
            assert(before.push('~').push('1') == before + seq!['~', '1']);
        } else {
            crate::text::push_char(out, c);
            assert(before.push(c) == before + seq![c]);
        }
        i = i + 1;
    }
    assert(cs@.take(cs.len() as int) == cs@);
}

} // verus!
