//! JSON values, as `serde_json` holds, reads and writes them.
use vstd::prelude::*;
use vstd::string::*;

use serde_json::Value;

verus! {

/// `serde_json::Value`: a JSON value; [`json_of`] names what it holds.
#[verifier::external_type_specification]
#[verifier::external_body]
pub struct ExValue(serde_json::Value);

/// `serde_json::Error`: says no more here than that a text is malformed.
#[verifier::external_type_specification]
#[verifier::external_body]
pub struct ExError(serde_json::Error);

/// What a JSON value holds. A number is an integer that is not negative, a
/// negative integer, or the bit pattern of a floating-point number.
pub ghost enum Json {
    Null,
    Bool(bool),
    Unsigned(u64),
    Negative(i64),
    Float(u64),
    Text(Seq<char>),
    Array(Seq<Json>),
    Object(Map<Seq<char>, Json>),
}

/// What a `serde_json::Value` holds.
pub uninterp spec fn json_of(value: Value) -> Json;

/// The value that a JSON text stands for; none where the text is malformed.
pub uninterp spec fn parsed(text: Seq<u8>) -> Option<Json>;

/// The JSON text that is written for a value, or the words that say why it cannot be
/// written.
pub uninterp spec fn written(json: Json) -> Result<Seq<u8>, Seq<char>>;

/// `serde_json::from_slice`: that the value depends on the text alone.
#[verifier::external_body]
pub(crate) fn parse(text: &Vec<u8>) -> (value: Result<Value, serde_json::Error>)
    ensures
        match value {
            Ok(value) => parsed(text@) == Some(json_of(value)),
            Err(_) => parsed(text@) is None,
        },
{
    serde_json::from_slice(text.as_slice())
}

/// `serde_json::to_vec` on a value: that the text, of a failure the words of the
/// writer, depends on what the value holds alone.
#[verifier::external_body]
pub(crate) fn write(value: &Value) -> (text: Result<Vec<u8>, String>)
    ensures
        match text {
            Ok(text) => written(json_of(*value)) == Ok::<_, Seq<char>>(text@),
            Err(cause) => written(json_of(*value)) == Err::<Seq<u8>, _>(cause@),
        },
{
    serde_json::to_vec(value).map_err(|cause| cause.to_string())
}

/// `Value::get` with a string: the field of that name, of an object alone.
#[verifier::external_body]
pub(crate) fn get<'a>(value: &'a Value, name: &str) -> (field: Option<&'a Value>)
    ensures
        match json_of(*value) {
            Json::Object(fields) => match field {
                Some(field) => fields.contains_key(name@) && json_of(*field) == fields[name@],
                None => !fields.contains_key(name@),
            },
            _ => field is None,
        },
{
    value.get(name)
}

/// `Value::is_object`.
#[verifier::external_body]
pub(crate) fn is_object(value: &Value) -> (result: bool)
    ensures
        result == (json_of(*value) is Object),
{
    value.is_object()
}

/// `Value::as_str`: the characters of a string, of nothing else.
#[verifier::external_body]
pub(crate) fn as_str(value: &Value) -> (string: Option<&str>)
    ensures
        match json_of(*value) {
            Json::Text(chars) => string matches Some(string) && string@ == chars,
            _ => string is None,
        },
{
    value.as_str()
}

/// `Value::as_u64`: an integer that is not negative, and nothing else.
#[verifier::external_body]
pub(crate) fn as_unsigned(value: &Value) -> (number: Option<u64>)
    ensures
        number == (match json_of(*value) {
            Json::Unsigned(number) => Some(number),
            _ => None,
        }),
{
    value.as_u64()
}

/// `Value::as_f64`, by bit pattern: a floating-point number as it is, an integer
/// as the nearest one. Of that, zero and one are stated exactly; a larger integer
/// becomes a finite number above one, and a negative integer, which is never zero,
/// a number of at most minus one.
#[verifier::external_body]
pub(crate) fn as_float(value: &Value) -> (bits: Option<u64>)
    ensures
        match json_of(*value) {
            Json::Float(pattern) => bits == Some(pattern),
            Json::Unsigned(number) => match bits {
                Some(bits) => {
                    &&& number == 0 ==> bits == 0
                    &&& number == 1 ==> bits == crate::binary64::ONE
                    &&& number > 1 ==> crate::binary64::ONE < bits < crate::binary64::INFINITY
                },
                None => false,
            },
            Json::Negative(_) => bits matches Some(bits) && bits >= 0xbff0_0000_0000_0000u64,
            _ => bits is None,
        },
{
    value.as_f64().map(|number| number.to_bits())
}

/// `Value::from` on a string.
#[verifier::external_body]
pub(crate) fn string(chars: &str) -> (value: Value)
    ensures
        json_of(value) == Json::Text(chars@),
{
    Value::from(chars)
}

/// `Value::from` on a number.
#[verifier::external_body]
pub(crate) fn number(unsigned: u64) -> (value: Value)
    ensures
        json_of(value) == Json::Unsigned(unsigned),
{
    Value::from(unsigned)
}

/// `Value::from` on a truth value.
#[verifier::external_body]
pub(crate) fn boolean(truth: bool) -> (value: Value)
    ensures
        json_of(value) == Json::Bool(truth),
{
    Value::from(truth)
}

/// `Value::from` on a number that may be missing: the number, or null.
#[verifier::external_body]
pub(crate) fn optional_number(unsigned: Option<u64>) -> (value: Value)
    ensures
        json_of(value) == (match unsigned {
            Some(unsigned) => Json::Unsigned(unsigned),
            None => Json::Null,
        }),
{
    Value::from(unsigned)
}

/// What each of several values holds.
pub open spec fn items(values: Seq<Value>) -> Seq<Json> {
    Seq::new(values.len(), |i: int| json_of(values[i]))
}

/// `Value::Array`, the array of the given values.
#[verifier::external_body]
pub(crate) fn array(values: Vec<Value>) -> (value: Value)
    ensures
        json_of(value) == Json::Array(items(values@)),
{
    Value::Array(values)
}

/// The names among the entries of an object.
pub open spec fn names(entries: Seq<(String, Value)>) -> Seq<Seq<char>> {
    Seq::new(entries.len(), |i: int| entries[i].0@)
}

/// The fields of an object that is made from names and values, no name twice.
pub open spec fn fields(entries: Seq<(String, Value)>) -> Map<Seq<char>, Json>
    decreases entries.len(),
{
    if entries.len() == 0 {
        Map::empty()
    } else {
        fields(entries.drop_last()).insert(entries.last().0@, json_of(entries.last().1))
    }
}

/// `Value::from_iter` on names and values, the object with those fields. Which of two
/// values under one name would stay is not stated, so no name may occur twice.
#[verifier::external_body]
pub(crate) fn object(entries: Vec<(String, Value)>) -> (value: Value)
    requires
        names(entries@).no_duplicates(),
    ensures
        json_of(value) == Json::Object(fields(entries@)),
{
    Value::from_iter(entries)
}

/// The fields are those that are named.
proof fn lemma_names(entries: Seq<(String, Value)>, name: Seq<char>)
    ensures
        fields(entries).contains_key(name) <==> names(entries).contains(name),
    decreases entries.len(),
{
    if entries.len() > 0 {
        let rest = entries.drop_last();
        lemma_names(rest, name);
        assert(names(entries) == names(rest).push(entries.last().0@));
        if names(rest).contains(name) {
            let i = choose|i: int| 0 <= i < rest.len() && names(rest)[i] == name;
            assert(names(entries)[i] == name);
        }
        assert(names(entries)[rest.len() as int] == entries.last().0@);
    }
}

/// Adds a field to the entries of an object, under a name that is new.
pub(crate) fn push_field(entries: &mut Vec<(String, Value)>, name: &str, value: Value)
    requires
        names(old(entries)@).no_duplicates(),
        !fields(old(entries)@).contains_key(name@),
    ensures
        names(final(entries)@).no_duplicates(),
        fields(final(entries)@) == fields(old(entries)@).insert(name@, json_of(value)),
{
    let ghost before = entries@;
    entries.push((name.to_owned(), value));
    proof {
        assert(entries@.drop_last() == before);
        assert(names(entries@) == names(before).push(name@));
        lemma_names(before, name@);
    }
}

/// Adds a value to the items of an array.
pub(crate) fn push_item(values: &mut Vec<Value>, value: Value)
    ensures
        items(final(values)@) == items(old(values)@).push(json_of(value)),
{
    let ghost before = items(values@);
    values.push(value);
    assert(items(values@) == before.push(json_of(value)));
}

} // verus!
