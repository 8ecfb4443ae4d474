//! Wire elements and what `serde_value` reads out of them.
//!
//! An element of a message is a `serde_value::Value`, and a failure to read
//! one is a `serde_value::DeserializerError`. This library never looks inside
//! either. Every reading of an element is a call of
//! `serde_value::Value::deserialize_into` at one target type, which consumes
//! the element and depends on nothing else. Each such reading has a name
//! here, and the function that performs it promises only that it returns what
//! the name stands for.

use serde_value::{DeserializerError, Value};
use vstd::prelude::*;

verus! {

#[verifier::external_type_specification]
#[verifier::external_body]
pub struct ExValue(serde_value::Value);

#[verifier::external_type_specification]
#[verifier::external_body]
pub struct ExDeserializerError(serde_value::DeserializerError);

/// What `deserialize_into::<bool>` makes of an element.
pub uninterp spec fn bool_of(element: Value) -> Result<bool, DeserializerError>;

/// What `deserialize_into::<i64>` makes of an element.
pub uninterp spec fn signed_of(element: Value) -> Result<i64, DeserializerError>;

/// What `deserialize_into::<u64>` makes of an element.
pub uninterp spec fn unsigned_of(element: Value) -> Result<u64, DeserializerError>;

/// What `deserialize_into::<String>` makes of an element: the characters of
/// the string.
pub uninterp spec fn text_of(element: Value) -> Result<Seq<char>, DeserializerError>;

/// What `deserialize_into::<Option<Value>>` makes of an element: `None` for
/// an absent value, else the element that is present.
pub uninterp spec fn optional_of(element: Value) -> Result<Option<Value>, DeserializerError>;

/// What `deserialize_into::<Vec<Value>>` makes of an element: the elements of
/// a nested sequence, the form in which a nested record arrives.
pub uninterp spec fn sequence_of(element: Value) -> Result<Seq<Value>, DeserializerError>;

/// How `serde_value::DeserializerError` renders a failure with `{:?}`.
pub uninterp spec fn cause_text(cause: DeserializerError) -> Seq<char>;

/// Formats a `serde_value::DeserializerError` with `{:?}`, that is with the
/// `Debug` impl that `serde_value` derives for it. The text depends on the
/// error alone and is the one that [`cause_text`] names.
#[verifier::external_body]
pub(crate) fn render_cause(cause: &DeserializerError) -> (r: String)
    ensures
        r@ == cause_text(*cause),
{
    format!("{:?}", cause)
}

/// Calls `serde_value::Value::deserialize_into::<bool>` on the element. The
/// result, value or error, is the one that [`bool_of`] names.
#[verifier::external_body]
pub(crate) fn element_into_bool(element: Value) -> (r: Result<bool, DeserializerError>)
    ensures
        r == bool_of(element),
{
    element.deserialize_into::<bool>()
}

/// Calls `serde_value::Value::deserialize_into::<i64>` on the element. The
/// result, value or error, is the one that [`signed_of`] names.
#[verifier::external_body]
pub(crate) fn element_into_signed(element: Value) -> (r: Result<i64, DeserializerError>)
    ensures
        r == signed_of(element),
{
    element.deserialize_into::<i64>()
}

/// Calls `serde_value::Value::deserialize_into::<u64>` on the element. The
/// result, value or error, is the one that [`unsigned_of`] names.
#[verifier::external_body]
pub(crate) fn element_into_unsigned(element: Value) -> (r: Result<u64, DeserializerError>)
    ensures
        r == unsigned_of(element),
{
    element.deserialize_into::<u64>()
}

/// Calls `serde_value::Value::deserialize_into::<String>` on the element. The
/// result, value or error, is the one that [`text_of`] names.
#[verifier::external_body]
pub(crate) fn element_into_text(element: Value) -> (r: Result<String, DeserializerError>)
    ensures
        match r {
            Ok(text) => text_of(element) == Ok::<Seq<char>, DeserializerError>(text@),
            Err(cause) => text_of(element) == Err::<Seq<char>, DeserializerError>(cause),
        },
{
    element.deserialize_into::<String>()
}

/// Calls `serde_value::Value::deserialize_into::<Option<Value>>` on the element. The
/// result, value or error, is the one that [`optional_of`] names.
#[verifier::external_body]
pub(crate) fn element_into_optional(element: Value) -> (r: Result<Option<Value>, DeserializerError>)
    ensures
        r == optional_of(element),
{
    element.deserialize_into::<Option<Value>>()
}

/// Calls `serde_value::Value::deserialize_into::<Vec<Value>>` on the element. The
/// result, value or error, is the one that [`sequence_of`] names.
#[verifier::external_body]
pub(crate) fn element_into_sequence(element: Value) -> (r: Result<Vec<Value>, DeserializerError>)
    ensures
        match r {
            Ok(elements) => sequence_of(element) == Ok::<Seq<Value>, DeserializerError>(elements@),
            Err(cause) => sequence_of(element) == Err::<Seq<Value>, DeserializerError>(cause),
        },
{
    element.deserialize_into::<Vec<Value>>()
}

} // verus!
