//! Single values out of JSON texts.
use vstd::prelude::*;

use crate::text;
use crate::text::owned;

verus! {

/// What is at a JSON pointer in a text: nothing where the text is no JSON, else
/// what is there, as a string, as an unsigned integer, as a boolean, whether it
/// is a number, whether it is null, and as JSON text.
pub uninterp spec fn json_value(text: Seq<char>, pointer: Seq<char>) -> Option<
    Option<(Option<Seq<char>>, Option<u64>, Option<bool>, bool, bool, Seq<char>)>,
>;

/// A value in a JSON text.
#[derive(Debug)]
pub struct JsonPart {
    pub text: Option<String>,
    pub number: Option<u64>,
    pub flag: Option<bool>,
    pub is_number: bool,
    pub is_null: bool,
    pub rendered: String,
}

impl JsonPart {
    pub open spec fn view(&self) -> (
        Option<Seq<char>>,
        Option<u64>,
        Option<bool>,
        bool,
        bool,
        Seq<char>,
    ) {
        (
            text::option_text(self.text),
            self.number,
            self.flag,
            self.is_number,
            self.is_null,
            self.rendered@,
        )
    }
}

/// `serde_json::from_str` on a whole text and `serde_json::Value::pointer` on
/// what it reads; of the value there `as_str`, `as_u64`, `as_bool`, `is_number`,
/// `is_null` and `to_string`. The contract says only that the answer depends on
/// the two texts alone; the JSON grammar is left unsaid.
#[verifier::external_body]
pub(crate) fn json_at(text: &str, pointer: &str) -> (r: Option<Option<JsonPart>>)
    ensures
        match r {
            None => json_value(text@, pointer@) is None,
            Some(None) => json_value(text@, pointer@) == Some(
                None::<(Option<Seq<char>>, Option<u64>, Option<bool>, bool, bool, Seq<char>)>,
            ),
            Some(Some(part)) => json_value(text@, pointer@) == Some(Some(part@)),
        },
{
    let value: serde_json::Value = match serde_json::from_str(text) {
        Ok(value) => value,
        Err(_) => return None,
    };
    Some(
        value.pointer(pointer).map(|part| JsonPart {
            text: part.as_str().map(|text| text.to_string()),
            number: part.as_u64(),
            flag: part.as_bool(),
            is_number: part.is_number(),
            is_null: part.is_null(),
            rendered: part.to_string(),
        }),
    )
}

pub open spec fn model(part: Option<JsonPart>) -> Option<
    (Option<Seq<char>>, Option<u64>, Option<bool>, bool, bool, Seq<char>),
> {
    match part {
        Some(p) => Some(p@),
        None => None,
    }
}

/// What is at a pointer; nothing, too, where the text is no JSON.
pub open spec fn value_at(text: Seq<char>, pointer: Seq<char>) -> Option<
    (Option<Seq<char>>, Option<u64>, Option<bool>, bool, bool, Seq<char>),
> {
    match json_value(text, pointer) {
        Some(Some(part)) => Some(part),
        _ => None,
    }
}

/// Reads what is at a pointer.
pub fn read_at(text: &str, pointer: &str) -> (r: Option<JsonPart>)
    ensures
        model(r) == value_at(text@, pointer@),
{
    match json_at(text, pointer) {
        Some(Some(part)) => Some(part),
        Some(None) => None,
        None => None,
    }
}

/// A value as a string.
pub open spec fn text_of(
    part: Option<(Option<Seq<char>>, Option<u64>, Option<bool>, bool, bool, Seq<char>)>,
) -> Option<Seq<char>> {
    match part {
        Some(p) => p.0,
        None => None,
    }
}

/// A value as an unsigned integer.
pub open spec fn number_of(
    part: Option<(Option<Seq<char>>, Option<u64>, Option<bool>, bool, bool, Seq<char>)>,
) -> Option<u64> {
    match part {
        Some(p) => p.1,
        None => None,
    }
}

/// A value as a boolean.
pub open spec fn flag_of(
    part: Option<(Option<Seq<char>>, Option<u64>, Option<bool>, bool, bool, Seq<char>)>,
) -> Option<bool> {
    match part {
        Some(p) => p.2,
        None => None,
    }
}

pub fn text_at(text: &str, pointer: &str) -> (r: Option<String>)
    ensures
        text::option_text(r) == text_of(value_at(text@, pointer@)),
{
    match read_at(text, pointer) {
        Some(part) => part.text,
        None => None,
    }
}

pub fn number_at(text: &str, pointer: &str) -> (r: Option<u64>)
    ensures
        r == number_of(value_at(text@, pointer@)),
{
    match read_at(text, pointer) {
        Some(part) => part.number,
        None => None,
    }
}

pub fn flag_at(text: &str, pointer: &str) -> (r: Option<bool>)
    ensures
        r == flag_of(value_at(text@, pointer@)),
{
    match read_at(text, pointer) {
        Some(part) => part.flag,
        None => None,
    }
}

/// A string that is not empty, or a number, as text.
pub open spec fn scalar_text(
    part: Option<(Option<Seq<char>>, Option<u64>, Option<bool>, bool, bool, Seq<char>)>,
) -> Option<Seq<char>> {
    match part {
        None => None,
        Some(p) => if p.0 is Some && p.0->0.len() > 0 {
            p.0
        } else if p.0 is None && p.3 {
            Some(p.5)
        } else {
            None
        },
    }
}

/// A string that is not empty, or a number, as text.
pub fn json_scalar_to_string(part: &Option<JsonPart>) -> (r: Option<String>)
    ensures
        text::option_text(r) == scalar_text(model(*part)),
{
    let part = match part {
        None => return None,
        Some(part) => part,
    };
    match &part.text {
        Some(found) => if crate::text::chars_of(found.as_str()).len() > 0 {
            Some(owned(found.as_str()))
        } else {
            None
        },
        None => if part.is_number {
            Some(owned(part.rendered.as_str()))
        } else {
            None
        },
    }
}

} // verus!
