//! JSON text, as far as its values are read here.

use crate::double::Double;
use vstd::prelude::*;

verus! {

/// What one JSON value can be read as.
pub struct JsonItem {
    /// As a number of double precision, for every number.
    pub float: Option<Double>,
    /// As a whole number that may be negative.
    pub signed: Option<i64>,
    /// As a whole number that is not negative.
    pub whole: Option<u64>,
    /// As a text, for every string.
    pub text: Option<String>,
}

/// What a [`JsonItem`] says.
pub struct JsonView {
    pub float: Option<Double>,
    pub signed: Option<i64>,
    pub whole: Option<u64>,
    pub text: Option<Seq<char>>,
}

impl View for JsonItem {
    type V = JsonView;

    open spec fn view(&self) -> JsonView {
        JsonView {
            float: self.float,
            signed: self.signed,
            whole: self.whole,
            text: match self.text {
                Some(t) => Some(t@),
                None => None,
            },
        }
    }
}

/// What the items of a list say.
pub open spec fn item_views(items: Seq<JsonItem>) -> Seq<JsonView> {
    items.map_values(|item: JsonItem| item@)
}

/// The values of the JSON array that `text` writes, or why it writes none.
pub uninterp spec fn json_array(text: Seq<char>) -> Result<Seq<JsonView>, Seq<char>>;

/// The value that a JSON pointer finds in the JSON value that `text` writes, or why `text` writes
/// none. What is not found reads as nothing.
pub uninterp spec fn json_pointer(text: Seq<char>, pointer: Seq<char>) -> Result<
    JsonView,
    Seq<char>,
>;

/// `serde_json::from_str`, read as an array of `serde_json::Value`s, each by its `as_f64`,
/// `as_i64`, `as_u64` and `as_str`. The outcome, which depends on the text alone, has the name
/// [`json_array`]. An error is turned into its message.
#[verifier::external_body]
pub(crate) fn parse_json_array(text: &str) -> (items: Result<Vec<JsonItem>, String>)
    ensures
        match items {
            Ok(v) => json_array(text@) == Ok::<Seq<JsonView>, Seq<char>>(item_views(v@)),
            Err(e) => json_array(text@) == Err::<Seq<JsonView>, Seq<char>>(e@),
        },
{
    let values: Vec<serde_json::Value> = serde_json::from_str(text).map_err(|e| e.to_string())?;
    Ok(values.iter().map(|v| JsonItem {
        float: v.as_f64().map(|x| Double { bits: x.to_bits() }),
        signed: v.as_i64(),
        whole: v.as_u64(),
        text: v.as_str().map(String::from),
    }).collect())
}

/// `serde_json::from_str` into a `serde_json::Value`, and `Value::pointer` in it; the value that is
/// found is read by its `as_f64`, `as_i64`, `as_u64` and `as_str`, and as null where none is. The
/// outcome, which depends on the two texts alone, has the name [`json_pointer`]. An error is turned
/// into its message.
#[verifier::external_body]
pub(crate) fn read_json_pointer(text: &str, pointer: &str) -> (item: Result<JsonItem, String>)
    ensures
        match item {
            Ok(v) => json_pointer(text@, pointer@) == Ok::<JsonView, Seq<char>>(v@),
            Err(e) => json_pointer(text@, pointer@) == Err::<JsonView, Seq<char>>(e@),
        },
{
    let value: serde_json::Value = serde_json::from_str(text).map_err(|e| e.to_string())?;
    let v = value.pointer(pointer).unwrap_or(&serde_json::Value::Null);
    Ok(JsonItem {
        float: v.as_f64().map(|x| Double { bits: x.to_bits() }),
        signed: v.as_i64(),
        whole: v.as_u64(),
        text: v.as_str().map(String::from),
    })
}

} // verus!
