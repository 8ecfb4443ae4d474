//! The types a field can declare and the values it can hold.

use crate::schema::RecordSchema;
use vstd::prelude::*;

verus! {

/// The type that a field declares.
#[derive(Debug)]
pub enum FieldType {
    Bool,
    Signed,
    Unsigned,
    Text,
    /// A value of the inner type that may be absent.
    Optional(Box<FieldType>),
    /// A nested record, which travels as a sequence of its own.
    Record(RecordSchema<FieldType>),
}

/// A decoded field.
#[derive(Debug, PartialEq)]
pub enum FieldValue {
    Bool(bool),
    Signed(i64),
    Unsigned(u64),
    Text(String),
    Optional(Option<Box<FieldValue>>),
    /// The fields of a nested record, in its declaration order.
    Record(Vec<FieldValue>),
}

/// What a [`FieldValue`] stands for.
pub enum Decoded {
    Bool(bool),
    Signed(i64),
    Unsigned(u64),
    Text(Seq<char>),
    Optional(Option<Box<Decoded>>),
    Record(Seq<Decoded>),
}

/// What a value stands for.
pub open spec fn value_view(value: FieldValue) -> Decoded
    decreases value,
{
    match value {
        FieldValue::Bool(flag) => Decoded::Bool(flag),
        FieldValue::Signed(number) => Decoded::Signed(number),
        FieldValue::Unsigned(number) => Decoded::Unsigned(number),
        FieldValue::Text(text) => Decoded::Text(text@),
        FieldValue::Optional(None) => Decoded::Optional(None),
        FieldValue::Optional(Some(present)) => Decoded::Optional(
            Some(Box::new(value_view(*present))),
        ),
        FieldValue::Record(fields) => Decoded::Record(views(fields@)),
    }
}

/// What the values of a record stand for, one by one.
pub open spec fn views(values: Seq<FieldValue>) -> Seq<Decoded>
    decreases values,
{
    Seq::new(
        values.len(),
        |i: int|
            if 0 <= i < values.len() {
                value_view(values[i])
            } else {
                arbitrary()
            },
    )
}

impl View for FieldValue {
    type V = Decoded;

    open spec fn view(&self) -> Decoded {
        value_view(*self)
    }
}

} // verus!
