//! Decoding a sequence of wire elements into a record.

use crate::schema::{
    is_wire_order, lemma_fields_are_parts, lemma_wire_order_distinct, occurs, FieldSpec,
    RecordSchema,
};
use crate::value::{views, Decoded, FieldType, FieldValue};
use crate::wire::{
    bool_of, cause_text, element_into_bool, element_into_optional, element_into_sequence,
    element_into_signed, element_into_text, element_into_unsigned, optional_of, render_cause,
    sequence_of, signed_of, text_of, unsigned_of,
};
use serde_value::{DeserializerError, Value};
use vstd::prelude::*;

verus! {

/// Why an element does not decode into a declared type.
#[derive(Debug)]
pub enum Cause {
    /// The element is not of the declared type.
    Value(DeserializerError),
    /// The element is a sequence that does not decode into the nested record.
    Record(Box<DecodeError>),
}

/// Why a sequence does not decode into a record.
#[derive(Debug)]
pub enum DecodeError {
    /// The element at the named field's position does not decode into the
    /// field's declared type.
    Element { field: String, cause: Cause },
    /// The sequence ended before it had supplied every position that the
    /// schema requires.
    MissingField,
}

impl Cause {
    /// The text of [`Cause::message`].
    pub open spec fn message_text(self) -> Seq<char>
        decreases self,
    {
        match self {
            Cause::Value(cause) => cause_text(cause),
            Cause::Record(failure) => failure.message_text(),
        }
    }

    /// Says in words what went wrong.
    pub fn message(&self) -> (r: String)
        ensures
            r@ == self.message_text(),
        decreases self,
    {
        match self {
            Cause::Value(cause) => render_cause(cause),
            Cause::Record(failure) => failure.message(),
        }
    }
}

impl DecodeError {
    /// The text of [`DecodeError::message`].
    pub open spec fn message_text(self) -> Seq<char>
        decreases self,
    {
        match self {
            DecodeError::Element { field, cause } => "failed to deserialize field `"@ + field@
                + "` because "@ + cause.message_text(),
            DecodeError::MissingField => "position outside the bounds of the message"@,
        }
    }

    /// Says in words what went wrong.
    pub fn message(&self) -> (r: String)
        ensures
            r@ == self.message_text(),
        decreases self,
    {
        match self {
            DecodeError::Element { field, cause } => {
                let mut text = String::from_str("failed to deserialize field `");
                text.append(field.as_str());
                text.append("` because ");
                text.append(cause.message().as_str());
                text
            },
            DecodeError::MissingField => String::from_str(
                "position outside the bounds of the message",
            ),
        }
    }
}

/// The value that an element decodes to under a declared type, or the reason
/// why it has none.
pub open spec fn decoded(ty: FieldType, element: Value) -> Result<Decoded, Cause>
    decreases ty, 0nat,
{
    match ty {
        FieldType::Bool => match bool_of(element) {
            Ok(value) => Ok(Decoded::Bool(value)),
            Err(cause) => Err(Cause::Value(cause)),
        },
        FieldType::Signed => match signed_of(element) {
            Ok(value) => Ok(Decoded::Signed(value)),
            Err(cause) => Err(Cause::Value(cause)),
        },
        FieldType::Unsigned => match unsigned_of(element) {
            Ok(value) => Ok(Decoded::Unsigned(value)),
            Err(cause) => Err(Cause::Value(cause)),
        },
        FieldType::Text => match text_of(element) {
            Ok(value) => Ok(Decoded::Text(value)),
            Err(cause) => Err(Cause::Value(cause)),
        },
        FieldType::Optional(inner) => match optional_of(element) {
            Ok(None) => Ok(Decoded::Optional(None)),
            Ok(Some(present)) => match decoded(*inner, present) {
                Ok(value) => Ok(Decoded::Optional(Some(Box::new(value)))),
                Err(cause) => Err(cause),
            },
            Err(cause) => Err(Cause::Value(cause)),
        },
        FieldType::Record(schema) => match sequence_of(element) {
            Ok(elements) => {
                proof {
                    lemma_fields_are_parts(schema);
                }
                match decoded_record(schema@.fields, elements) {
                    Ok(record) => Ok(Decoded::Record(record)),
                    Err(failure) => Err(Cause::Record(Box::new(failure))),
                }
            },
            Err(cause) => Err(Cause::Value(cause)),
        },
    }
}

/// Whether a sequence of `len` elements has an element at the position of
/// the field in `slot`.
pub open spec fn supplied<T>(fields: Seq<FieldSpec<T>>, len: nat, slot: int) -> bool {
    fields[slot].position < len
}

/// The field in `slot` has an element among the `len` of a sequence, and by
/// `outcomes` that element does not decode.
pub open spec fn fails<T>(
    fields: Seq<FieldSpec<T>>,
    outcomes: Seq<Result<Decoded, Cause>>,
    len: nat,
    slot: int,
) -> bool {
    &&& 0 <= slot < fields.len()
    &&& supplied(fields, len, slot)
    &&& outcomes[slot] is Err
}

/// The field in `slot` fails, and no failing field comes before it in the
/// sequence.
pub open spec fn is_first_failure<T>(
    fields: Seq<FieldSpec<T>>,
    outcomes: Seq<Result<Decoded, Cause>>,
    len: nat,
    slot: int,
) -> bool {
    &&& fails(fields, outcomes, len, slot)
    &&& forall|other: int| #[trigger]
        fails(fields, outcomes, len, other) ==> fields[slot].position <= fields[other].position
}

/// What a scan over a sequence of `len` elements comes to, given for each
/// field what the element at its position decodes to.
///
/// The scan runs forward and stops at the first required element that does
/// not decode; with none such, every field must have found its element, and
/// the record holds the decoded values in declaration order. Elements at
/// positions that no field claims play no part.
pub open spec fn assembled<T>(
    fields: Seq<FieldSpec<T>>,
    outcomes: Seq<Result<Decoded, Cause>>,
    len: nat,
) -> Result<Seq<Decoded>, DecodeError> {
    if exists|slot: int| fails(fields, outcomes, len, slot) {
        let slot = choose|slot: int| is_first_failure(fields, outcomes, len, slot);
        Err(DecodeError::Element { field: fields[slot].name, cause: outcomes[slot]->Err_0 })
    } else if exists|slot: int| 0 <= slot < fields.len() && !#[trigger] supplied(fields, len, slot) {
        Err(DecodeError::MissingField)
    } else {
        Ok(Seq::new(fields.len(), |slot: int| outcomes[slot]->Ok_0))
    }
}

/// For each field, what the element at its position decodes to under the
/// field's declared type.
pub open spec fn outcomes(fields: Seq<FieldSpec<FieldType>>, elements: Seq<Value>) -> Seq<
    Result<Decoded, Cause>,
>
    decreases fields, 0nat,
{
    Seq::new(
        fields.len(),
        |slot: int|
            if 0 <= slot < fields.len() {
                decoded(fields[slot].declared_type, elements[fields[slot].position as int])
            } else {
                arbitrary()
            },
    )
}

/// The record that a sequence decodes to, its values in declaration order.
pub open spec fn decoded_record(fields: Seq<FieldSpec<FieldType>>, elements: Seq<Value>) -> Result<
    Seq<Decoded>,
    DecodeError,
>
    decreases fields, 1nat,
{
    assembled(fields, outcomes(fields, elements), elements.len())
}

/// Whether a slot of the record under construction holds what it should.
spec fn holds(entry: Option<FieldValue>, expected: Option<Decoded>) -> bool {
    match entry {
        Some(value) => expected == Some(value@),
        None => expected is None,
    }
}

/// Decodes one element into a declared type.
///
/// A scalar is read by `serde_value`; an optional value is absent or decodes
/// into the inner type; a nested record is a sequence that decodes against
/// the nested schema.
pub fn decode_element(ty: &FieldType, element: Value) -> (r: Result<FieldValue, Cause>)
    ensures
        match r {
            Ok(value) => decoded(*ty, element) == Ok::<Decoded, Cause>(value@),
            Err(cause) => decoded(*ty, element) == Err::<Decoded, Cause>(cause),
        },
    decreases *ty, 0nat,
{
    match ty {
        FieldType::Bool => match element_into_bool(element) {
            Ok(value) => Ok(FieldValue::Bool(value)),
            Err(cause) => Err(Cause::Value(cause)),
        },
        FieldType::Signed => match element_into_signed(element) {
            Ok(value) => Ok(FieldValue::Signed(value)),
            Err(cause) => Err(Cause::Value(cause)),
        },
        FieldType::Unsigned => match element_into_unsigned(element) {
            Ok(value) => Ok(FieldValue::Unsigned(value)),
            Err(cause) => Err(Cause::Value(cause)),
        },
        FieldType::Text => match element_into_text(element) {
            Ok(value) => Ok(FieldValue::Text(value)),
            Err(cause) => Err(Cause::Value(cause)),
        },
        FieldType::Optional(inner) => match element_into_optional(element) {
            Ok(None) => Ok(FieldValue::Optional(None)),
            Ok(Some(present)) => match decode_element(inner, present) {
                Ok(value) => Ok(FieldValue::Optional(Some(Box::new(value)))),
                Err(cause) => Err(cause),
            },
            Err(cause) => Err(Cause::Value(cause)),
        },
        FieldType::Record(schema) => match element_into_sequence(element) {
            Ok(elements) => match decode_sequence(schema, elements) {
                Ok(record) => Ok(FieldValue::Record(record)),
                Err(failure) => Err(Cause::Record(Box::new(failure))),
            },
            Err(cause) => Err(Cause::Value(cause)),
        },
    }
}

/// Decodes a sequence of wire elements against a schema.
///
/// The elements are taken in order, each under its zero-based index. An
/// element whose index is the position of a field is decoded into that
/// field's declared type, and a failure to do so ends the decoding at once;
/// any other element is passed over. When the sequence is exhausted every
/// field must have been filled. The record comes back with its values in
/// declaration order.
///
/// The sequence is whatever the caller drew from its source: whether a read
/// that fails ends the message or fails it is the caller's to decide before
/// it calls.
pub fn decode_sequence(schema: &RecordSchema<FieldType>, elements: Vec<Value>) -> (r: Result<
    Vec<FieldValue>,
    DecodeError,
>)
    ensures
        match r {
            Ok(record) => decoded_record(schema@.fields, elements@) == Ok::<
                Seq<Decoded>,
                DecodeError,
            >(views(record@)),
            Err(e) => decoded_record(schema@.fields, elements@) == Err::<Seq<Decoded>, DecodeError>(
                e,
            ),
        },
    decreases *schema, 1nat,
{
    let fields = schema.fields();
    let wire = schema.wire_order();
    let n = fields.len();
    let total = elements.len();
    let ghost elems = elements@;
    let ghost outs = outcomes(fields@, elems);
    proof {
        lemma_wire_order_distinct(fields@, wire@);
    }

    let mut slots: Vec<Option<FieldValue>> = Vec::new();
    let mut made: usize = 0;
    while made < n
        invariant
            made <= n,
            slots.len() == made,
            forall|slot: int| 0 <= slot < made ==> slots[slot] is None,
        decreases n - made,
    {
        slots.push(None);
        made += 1;
    }

    let mut next: usize = 0;
    let mut index: usize = 0;
    for element in it: elements
        invariant
            it.seq() == elems,
            elems == elements@,
            elems.len() == total,
            outs == outcomes(fields@, elems),
            index == it.index(),
            fields@ == schema@.fields,
            n == fields.len(),
            is_wire_order(fields@, wire@),
            next <= n,
            forall|k: int| 0 <= k < next ==> fields[wire[k] as int].position < index,
            forall|k: int| next <= k < n ==> fields[wire[k] as int].position >= index,
            slots.len() == n,
            forall|slot: int|
                0 <= slot < n ==> holds(
                    #[trigger] slots[slot],
                    if fields[slot].position < index {
                        Some(outs[slot]->Ok_0)
                    } else {
                        None
                    },
                ),
            forall|slot: int|
                0 <= slot < n && fields[slot].position < index ==> #[trigger] outs[slot] is Ok,
    {
        proof {
            lemma_wire_order_distinct(fields@, wire@);
        }
        assert(index < elems.len());
        if next < n && fields[wire[next]].position as usize == index {
            let slot = wire[next];
            proof {
                lemma_fields_are_parts(*schema);
            }
            match decode_element(&fields[slot].declared_type, element) {
                Ok(value) => {
                    assert(outs[slot as int] == Ok::<Decoded, Cause>(value@));
                    slots.set(slot, Some(value));
                    next += 1;
                },
                Err(cause) => {
                    proof {
                        assert(outs[slot as int] == Err::<Decoded, Cause>(cause));
                        assert(fails(fields@, outs, elems.len(), slot as int));
                        assert forall|other: int| #[trigger]
                            fails(fields@, outs, elems.len(), other) implies fields[slot as int].position
                            <= fields[other].position by {
                            if fields[other].position < index {
                                assert(outs[other] is Ok);
                            }
                        }
                        assert(is_first_failure(fields@, outs, elems.len(), slot as int));
                        let chosen = choose|c: int| is_first_failure(fields@, outs, elems.len(), c);
                        assert(fails(fields@, outs, elems.len(), chosen));
                        assert(fields[chosen].position == fields[slot as int].position);
                        assert(chosen == slot);
                    }
                    return Err(DecodeError::Element { field: fields[slot].name.clone(), cause });
                },
            }
        } else {
            proof {
                assert forall|t: int| 0 <= t < n implies fields[t].position != index by {
                    assert(occurs(wire@, t));
                    let k = choose|k: int| 0 <= k < wire.len() && wire[k] == t;
                    if k > next {
                        assert(fields[wire[next as int] as int].position < fields[wire[k] as int].position);
                    }
                }
            }
        }
        proof {
            assert forall|k: int| next <= k < n implies fields[wire[k] as int].position >= index
                + 1 by {
                if k > 0 && next > 0 && k >= next {
                    assert(fields[wire[k] as int].position >= index);
                }
                if next > 0 && k > next - 1 {
                    assert(fields[wire[next - 1] as int].position < fields[wire[k] as int].position);
                }
            }
        }
        index += 1;
    }

    let ghost filled = slots@;
    let mut record: Vec<FieldValue> = Vec::new();
    for entry in it: slots
        invariant
            it.seq() == filled,
            filled.len() == n,
            n == fields.len(),
            fields@ == schema@.fields,
            elems == elements@,
            outs == outcomes(fields@, elems),
            is_wire_order(fields@, wire@),
            forall|slot: int|
                0 <= slot < n ==> holds(
                    #[trigger] filled[slot],
                    if fields[slot].position < elems.len() {
                        Some(outs[slot]->Ok_0)
                    } else {
                        None
                    },
                ),
            forall|slot: int|
                0 <= slot < n && fields[slot].position < elems.len() ==> #[trigger] outs[slot] is Ok,
            record.len() == it.index(),
            forall|slot: int|
                0 <= slot < record.len() ==> #[trigger] supplied(fields@, elems.len(), slot),
            forall|slot: int|
                0 <= slot < record.len() ==> (#[trigger] record[slot])@ == outs[slot]->Ok_0,
    {
        let ghost at = it.index() as int;
        match entry {
            Some(value) => {
                proof {
                    assert(filled[at] == Some(value));
                    assert(supplied(fields@, elems.len(), at));
                    assert(value@ == outs[at]->Ok_0);
                }
                record.push(value);
            },
            None => {
                proof {
                    assert(filled[at] is None);
                    assert(!supplied(fields@, elems.len(), at));
                }
                return Err(DecodeError::MissingField);
            },
        }
    }
    proof {
        assert forall|slot: int| !fails(fields@, outs, elems.len(), slot) by {
            if 0 <= slot < n && supplied(fields@, elems.len(), slot) {
                assert(outs[slot] is Ok);
            }
        }
        assert(views(record@) =~= Seq::new(fields@.len(), |slot: int| outs[slot]->Ok_0));
    }
    Ok(record)
}

} // verus!
