//! What holds of schemas and of decoding, whatever the inputs.

use crate::decode::{
    assembled, decoded, decoded_record, fails, is_first_failure, outcomes, supplied, Cause,
    DecodeError,
};
use crate::schema::{
    admits_reading, admits_readings, compile_failure, derived_fields, distinct_positions,
    first_order_from, is_first_refusal, is_order, is_wire_order, lacks_position, occurs,
    order_annotations,
    position_of, position_text, positioned_fields, positions, Annotation, FieldDecl, FieldSpec,
    RecordDecl, SchemaError, TargetShape,
};
use crate::value::{Decoded, FieldType};
use serde_value::Value;
use vstd::prelude::*;

verus! {

/// Among the slots below `upto`, if any fails then one fails at a position
/// that no other failing slot below `upto` undercuts.
proof fn lemma_least_failure_below<T>(
    fields: Seq<FieldSpec<T>>,
    outcomes: Seq<Result<Decoded, Cause>>,
    len: nat,
    upto: int,
) -> (least: int)
    requires
        0 <= upto <= fields.len(),
        exists|slot: int| 0 <= slot < upto && fails(fields, outcomes, len, slot),
    ensures
        0 <= least < upto,
        fails(fields, outcomes, len, least),
        forall|other: int|
            0 <= other < upto && #[trigger] fails(fields, outcomes, len, other)
                ==> fields[least].position <= fields[other].position,
    decreases upto,
{
    let last = upto - 1;
    if exists|slot: int| 0 <= slot < last && fails(fields, outcomes, len, slot) {
        let before = lemma_least_failure_below(fields, outcomes, len, last);
        if fails(fields, outcomes, len, last) && fields[last].position < fields[before].position {
            last
        } else {
            before
        }
    } else {
        last
    }
}

/// Where any field fails, some field is the first to fail.
pub proof fn lemma_first_failure_exists<T>(
    fields: Seq<FieldSpec<T>>,
    outcomes: Seq<Result<Decoded, Cause>>,
    len: nat,
)
    requires
        exists|slot: int| fails(fields, outcomes, len, slot),
    ensures
        exists|slot: int| is_first_failure(fields, outcomes, len, slot),
{
    let least = lemma_least_failure_below(fields, outcomes, len, fields.len() as int);
    assert(is_first_failure(fields, outcomes, len, least));
}

/// With distinct positions, only one field can be the first to fail.
pub proof fn lemma_first_failure_unique<T>(
    fields: Seq<FieldSpec<T>>,
    outcomes: Seq<Result<Decoded, Cause>>,
    len: nat,
    one: int,
    other: int,
)
    requires
        distinct_positions(fields),
        is_first_failure(fields, outcomes, len, one),
        is_first_failure(fields, outcomes, len, other),
    ensures
        one == other,
{
    assert(fails(fields, outcomes, len, one));
    assert(fails(fields, outcomes, len, other));
    assert(fields[one].position == fields[other].position);
}

/// A scan reads only the outcomes of the fields that the sequence supplies:
/// two scans that agree on which fields are supplied, and on what those
/// fields' elements decode to, come to the same end.
pub proof fn lemma_scan_reads_supplied_outcomes<T>(
    fields: Seq<FieldSpec<T>>,
    one: Seq<Result<Decoded, Cause>>,
    one_len: nat,
    other: Seq<Result<Decoded, Cause>>,
    other_len: nat,
)
    requires
        distinct_positions(fields),
        one.len() == fields.len(),
        other.len() == fields.len(),
        forall|slot: int|
            0 <= slot < fields.len() ==> {
                &&& #[trigger] supplied(fields, one_len, slot) == supplied(fields, other_len, slot)
                &&& supplied(fields, one_len, slot) ==> one[slot] == other[slot]
            },
    ensures
        assembled(fields, one, one_len) == assembled(fields, other, other_len),
{
    assert forall|slot: int| fails(fields, one, one_len, slot) == fails(
        fields,
        other,
        other_len,
        slot,
    ) by {
        if 0 <= slot < fields.len() {
            assert(supplied(fields, one_len, slot) == supplied(fields, other_len, slot));
        }
    }
    if exists|slot: int| fails(fields, one, one_len, slot) {
        lemma_first_failure_exists(fields, one, one_len);
        let first = choose|slot: int| is_first_failure(fields, one, one_len, slot);
        assert(fails(fields, one, one_len, first));
        assert(fails(fields, other, other_len, first));
        assert(is_first_failure(fields, other, other_len, first));
        let again = choose|slot: int| is_first_failure(fields, other, other_len, slot);
        lemma_first_failure_unique(fields, other, other_len, first, again);
        assert(supplied(fields, one_len, first));
        assert(one[first] == other[first]);
    } else {
        if exists|slot: int|
            0 <= slot < fields.len() && !#[trigger] supplied(fields, one_len, slot) {
            let missing = choose|slot: int|
                0 <= slot < fields.len() && !#[trigger] supplied(fields, one_len, slot);
            assert(!supplied(fields, other_len, missing));
        } else {
            assert forall|slot: int| 0 <= slot < fields.len() implies #[trigger] supplied(
                fields,
                other_len,
                slot,
            ) by {
                assert(supplied(fields, one_len, slot));
            }
            assert forall|slot: int| 0 <= slot < fields.len() implies #[trigger] one[slot]
                == other[slot] by {
                assert(supplied(fields, one_len, slot));
            }
            assert(Seq::new(fields.len(), |slot: int| one[slot]->Ok_0) =~= Seq::new(
                fields.len(),
                |slot: int| other[slot]->Ok_0,
            ));
        }
    }
}

/// A sequence that holds, at every position the schema requires, an element
/// that decodes into the field's declared type decodes to a record, and each
/// field of the record is the decoded element at the field's position.
pub proof fn lemma_required_elements_decode(
    fields: Seq<FieldSpec<FieldType>>,
    elements: Seq<Value>,
)
    requires
        forall|slot: int|
            0 <= slot < fields.len() ==> #[trigger] supplied(fields, elements.len(), slot)
                && decoded(fields[slot].declared_type, elements[fields[slot].position as int])
                is Ok,
    ensures
        decoded_record(fields, elements) matches Ok(record) && record.len() == fields.len()
            && forall|slot: int|
            0 <= slot < fields.len() ==> decoded(
                fields[slot].declared_type,
                elements[fields[slot].position as int],
            ) == Ok::<Decoded, Cause>(#[trigger] record[slot]),
{
    let outs = outcomes(fields, elements);
    assert forall|slot: int| !fails(fields, outs, elements.len(), slot) by {
        if 0 <= slot < fields.len() {
            assert(supplied(fields, elements.len(), slot));
        }
    }
    let record = Seq::new(fields.len(), |slot: int| outs[slot]->Ok_0);
    assert(decoded_record(fields, elements) == Ok::<Seq<Decoded>, DecodeError>(record));
    assert forall|slot: int| 0 <= slot < fields.len() implies decoded(
        fields[slot].declared_type,
        elements[fields[slot].position as int],
    ) == Ok::<Decoded, Cause>(#[trigger] record[slot]) by {
        assert(supplied(fields, elements.len(), slot));
    }
}

/// Two sequences that supply the same fields, and hold the same element at
/// the position of each field they supply, decode alike: what stands at the
/// other positions is immaterial.
pub proof fn lemma_other_positions_are_ignored(
    fields: Seq<FieldSpec<FieldType>>,
    one: Seq<Value>,
    other: Seq<Value>,
)
    requires
        distinct_positions(fields),
        forall|slot: int|
            0 <= slot < fields.len() ==> {
                &&& #[trigger] supplied(fields, one.len(), slot) == supplied(
                    fields,
                    other.len(),
                    slot,
                )
                &&& supplied(fields, one.len(), slot) ==> one[fields[slot].position as int]
                    == other[fields[slot].position as int]
            },
    ensures
        decoded_record(fields, one) == decoded_record(fields, other),
{
    let a = outcomes(fields, one);
    let b = outcomes(fields, other);
    assert forall|slot: int| 0 <= slot < fields.len() implies {
        &&& #[trigger] supplied(fields, one.len(), slot) == supplied(fields, other.len(), slot)
        &&& supplied(fields, one.len(), slot) ==> a[slot] == b[slot]
    } by {
        assert(supplied(fields, one.len(), slot) == supplied(fields, other.len(), slot));
    }
    lemma_scan_reads_supplied_outcomes(fields, a, one.len(), b, other.len());
}

/// Once a sequence holds an element at every position the schema requires,
/// elements appended to it change nothing.
pub proof fn lemma_trailing_elements_are_ignored(
    fields: Seq<FieldSpec<FieldType>>,
    elements: Seq<Value>,
    extra: Seq<Value>,
)
    requires
        distinct_positions(fields),
        forall|slot: int|
            0 <= slot < fields.len() ==> #[trigger] supplied(fields, elements.len(), slot),
    ensures
        decoded_record(fields, elements + extra) == decoded_record(fields, elements),
{
    assert forall|slot: int| 0 <= slot < fields.len() implies {
        &&& #[trigger] supplied(fields, (elements + extra).len(), slot) == supplied(
            fields,
            elements.len(),
            slot,
        )
        &&& supplied(fields, (elements + extra).len(), slot) ==> (elements
            + extra)[fields[slot].position as int] == elements[fields[slot].position as int]
    } by {
        assert(supplied(fields, elements.len(), slot));
    }
    lemma_other_positions_are_ignored(fields, elements + extra, elements);
}

/// A sequence that ends at or before a position the schema requires does not
/// decode. Unless a required element before its end fails to decode, which
/// ends the decoding first, the failure is `MissingField`.
pub proof fn lemma_short_sequence_misses_a_field(
    fields: Seq<FieldSpec<FieldType>>,
    elements: Seq<Value>,
)
    requires
        exists|slot: int|
            0 <= slot < fields.len() && elements.len() <= (#[trigger] fields[slot]).position,
        forall|slot: int|
            0 <= slot < fields.len() && #[trigger] supplied(fields, elements.len(), slot)
                ==> decoded(fields[slot].declared_type, elements[fields[slot].position as int])
                is Ok,
    ensures
        decoded_record(fields, elements) == Err::<Seq<Decoded>, DecodeError>(
            DecodeError::MissingField,
        ),
{
    let outs = outcomes(fields, elements);
    let short = choose|slot: int|
        0 <= slot < fields.len() && elements.len() <= (#[trigger] fields[slot]).position;
    assert(!supplied(fields, elements.len(), short));
    assert forall|slot: int| !fails(fields, outs, elements.len(), slot) by {
        if 0 <= slot < fields.len() && supplied(fields, elements.len(), slot) {
            assert(outs[slot] is Ok);
        }
    }
}

/// A sequence that ends at or before a position the schema requires never
/// decodes to a record.
pub proof fn lemma_short_sequence_fails(fields: Seq<FieldSpec<FieldType>>, elements: Seq<Value>)
    requires
        exists|slot: int|
            0 <= slot < fields.len() && elements.len() <= (#[trigger] fields[slot]).position,
    ensures
        decoded_record(fields, elements) is Err,
{
    let short = choose|slot: int|
        0 <= slot < fields.len() && elements.len() <= (#[trigger] fields[slot]).position;
    assert(!supplied(fields, elements.len(), short));
}

/// The order in which a record declares its fields does not matter to what
/// a sequence decodes to. Where `shuffled` declares the fields of `fields`
/// in another order, `shuffled[j]` being `fields[order[j]]`, the same
/// sequence gives the same failure under both, or two records that hold the
/// same value for each field.
pub proof fn lemma_declaration_order_is_immaterial(
    fields: Seq<FieldSpec<FieldType>>,
    shuffled: Seq<FieldSpec<FieldType>>,
    order: Seq<int>,
    elements: Seq<Value>,
)
    requires
        distinct_positions(fields),
        distinct_positions(shuffled),
        order.len() == shuffled.len(),
        shuffled.len() == fields.len(),
        forall|j: int|
            0 <= j < shuffled.len() ==> 0 <= #[trigger] order[j] < fields.len() && shuffled[j]
                == fields[order[j]],
        forall|slot: int| 0 <= slot < fields.len() ==> #[trigger] order.contains(slot),
    ensures
        match decoded_record(fields, elements) {
            Ok(record) => decoded_record(shuffled, elements) matches Ok(other) && other.len()
                == record.len() && forall|j: int|
                0 <= j < other.len() ==> #[trigger] other[j] == record[order[j]],
            Err(e) => decoded_record(shuffled, elements) == Err::<Seq<Decoded>, DecodeError>(e),
        },
{
    let len = elements.len();
    let outs = outcomes(fields, elements);
    let mixed = outcomes(shuffled, elements);
    assert forall|j: int| 0 <= j < shuffled.len() implies {
        &&& fails(shuffled, mixed, len, j) == fails(fields, outs, len, #[trigger] order[j])
        &&& supplied(shuffled, len, j) == supplied(fields, len, order[j])
        &&& mixed[j] == outs[order[j]]
    } by {
        assert(shuffled[j] == fields[order[j]]);
    }
    if exists|slot: int| fails(fields, outs, len, slot) {
        lemma_first_failure_exists(fields, outs, len);
        let first = choose|slot: int| is_first_failure(fields, outs, len, slot);
        assert(fails(fields, outs, len, first));
        assert(order.contains(first));
        let j = choose|j: int| 0 <= j < order.len() && order[j] == first;
        assert(fails(shuffled, mixed, len, j));
        assert forall|other: int| #[trigger] fails(shuffled, mixed, len, other) implies shuffled[j].position
            <= shuffled[other].position by {
            assert(fails(fields, outs, len, order[other]));
        }
        assert(is_first_failure(shuffled, mixed, len, j));
        let again = choose|slot: int| is_first_failure(shuffled, mixed, len, slot);
        lemma_first_failure_unique(shuffled, mixed, len, j, again);
    } else {
        assert forall|j: int| !fails(shuffled, mixed, len, j) by {
            if 0 <= j < shuffled.len() {
                assert(!fails(fields, outs, len, order[j]));
            }
        }
        if exists|slot: int| 0 <= slot < fields.len() && !#[trigger] supplied(fields, len, slot) {
            let missing = choose|slot: int|
                0 <= slot < fields.len() && !#[trigger] supplied(fields, len, slot);
            assert(order.contains(missing));
            let j = choose|j: int| 0 <= j < order.len() && order[j] == missing;
            assert(!supplied(shuffled, len, j));
        } else {
            assert forall|j: int| 0 <= j < shuffled.len() implies #[trigger] supplied(
                shuffled,
                len,
                j,
            ) by {
                assert(supplied(fields, len, order[j]));
            }
        }
    }
}

/// The annotation that assigns a field's position is the first one named
/// `order`, counted from `from`: none stands before it, and where none is
/// found there is none.
pub proof fn lemma_first_order(annotations: Seq<Annotation>, from: int)
    requires
        0 <= from,
    ensures
        match first_order_from(annotations, from) {
            Some(i) => {
                &&& from <= i < annotations.len()
                &&& is_order(annotations[i])
                &&& forall|j: int| from <= j < i ==> !is_order(#[trigger] annotations[j])
            },
            None => forall|j: int|
                from <= j < annotations.len() ==> !is_order(#[trigger] annotations[j]),
        },
    decreases annotations.len() - from,
{
    if from < annotations.len() && !is_order(annotations[from]) {
        lemma_first_order(annotations, from + 1);
    }
}

/// The annotation that decides is the first of those named `order`; where
/// none decides, none is named `order`.
pub proof fn lemma_first_of_order_annotations(annotations: Seq<Annotation>)
    ensures
        match first_order_from(annotations, 0) {
            None => order_annotations(annotations).len() == 0,
            Some(i) => order_annotations(annotations).len() > 0 && order_annotations(
                annotations,
            )[0] == annotations[i],
        },
    decreases annotations.len(),
{
    reveal(Seq::filter);
    lemma_first_order(annotations, 0);
    if annotations.len() > 0 {
        let front = annotations.drop_last();
        let last = annotations.len() - 1;
        lemma_first_of_order_annotations(front);
        lemma_first_order(front, 0);
        assert(forall|j: int| 0 <= j < front.len() ==> front[j] == annotations[j]);
        match first_order_from(annotations, 0) {
            None => {
                if first_order_from(front, 0) is Some {
                    let i = first_order_from(front, 0)->Some_0;
                    assert(is_order(annotations[i]));
                }
                assert(!is_order(annotations[last]));
            },
            Some(i) => {
                if i < last {
                    assert(is_order(front[i]));
                    match first_order_from(front, 0) {
                        None => {
                            assert(!is_order(front[i]));
                        },
                        Some(k) => {
                            if k < i {
                                assert(!is_order(annotations[k]));
                            }
                            if i < k {
                                assert(!is_order(front[i]));
                            }
                        },
                    }
                } else {
                    if first_order_from(front, 0) is Some {
                        let k = first_order_from(front, 0)->Some_0;
                        assert(!is_order(annotations[k]));
                    }
                }
            },
        }
    }
}

/// Two fields that carry the same annotations named `order`, in the same
/// order, state their position in the same text, or neither states it: the
/// fields' names and types and their other annotations play no part.
pub proof fn lemma_same_order_annotations_same_text<T>(one: FieldDecl<T>, other: FieldDecl<T>)
    requires
        order_annotations(one.annotations@) == order_annotations(other.annotations@),
    ensures
        match position_text(one) {
            Ok(text) => position_text(other) == Ok::<Seq<char>, SchemaError>(text),
            Err(_) => position_text(other) is Err,
        },
{
    lemma_first_of_order_annotations(one.annotations@);
    lemma_first_of_order_annotations(other.annotations@);
}

/// Where an annotation named `order` has none of that name before it, its
/// argument list is the text in which the field states its position,
/// whatever follows it.
pub proof fn lemma_first_order_annotation_decides<T>(field: FieldDecl<T>, i: int)
    requires
        0 <= i < field.annotations.len(),
        is_order(field.annotations[i]),
        forall|j: int| 0 <= j < i ==> !is_order(#[trigger] field.annotations[j]),
    ensures
        position_text(field) == (match field.annotations[i].arguments {
            None => Err::<Seq<char>, SchemaError>(
                SchemaError::InvalidPosition { field: field.name },
            ),
            Some(tokens) => if tokens@.contains('-') {
                Err::<Seq<char>, SchemaError>(SchemaError::InvalidPosition { field: field.name })
            } else {
                Ok::<Seq<char>, SchemaError>(tokens@)
            },
        }),
{
    lemma_first_order(field.annotations@, 0);
    match first_order_from(field.annotations@, 0) {
        None => {
            assert(!is_order(field.annotations@[i]));
        },
        Some(k) => {
            if k < i {
                assert(!is_order(field.annotations[k]));
            }
            if i < k {
                assert(!is_order(field.annotations@[i]));
            }
        },
    }
}

/// Positions are pairwise distinct exactly when as many distinct positions
/// occur as there are fields.
pub proof fn lemma_distinct_iff_cardinality<T>(fields: Seq<FieldSpec<T>>)
    ensures
        distinct_positions(fields) <==> positions(fields).to_set().len() == fields.len(),
{
    let all = positions(fields);
    if distinct_positions(fields) {
        assert forall|a: int, b: int| 0 <= a < all.len() && 0 <= b < all.len() && a != b implies all[a]
            != all[b] by {
            if a < b {
                assert(fields[a].position != fields[b].position);
            } else {
                assert(fields[b].position != fields[a].position);
            }
        }
        all.unique_seq_to_set();
    }
    if all.to_set().len() == fields.len() {
        all.lemma_no_dup_set_cardinality();
        assert forall|a: int, b: int| 0 <= a < b < fields.len() implies fields[a].position
            != fields[b].position by {
            assert(all[a] != all[b]);
        }
    }
}

/// A field whose annotations cannot give it a position is refused, whatever
/// is read for it.
pub proof fn lemma_field_without_position_is_refused<T>(
    field: FieldDecl<T>,
    reading: Result<u32, SchemaError>,
)
    requires
        lacks_position(field),
        admits_reading(field, reading),
    ensures
        reading is Err,
{
}

/// A reading is a position up to `i32::MAX`, or it says that the field's
/// position is missing or invalid.
pub proof fn lemma_reading_is_position_or_refusal<T>(
    field: FieldDecl<T>,
    reading: Result<u32, SchemaError>,
)
    requires
        admits_reading(field, reading),
    ensures
        match reading {
            Ok(position) => position <= i32::MAX && !lacks_position(field),
            Err(e) => e == (SchemaError::MissingPosition { field: field.name }) || e == (
            SchemaError::InvalidPosition { field: field.name }),
        },
{
    if position_text(field) is Ok {
        let literal = choose|literal: Option<i32>|
            reading == #[trigger] position_of(field.name, literal);
        assert(reading == position_of(field.name, literal));
    }
}

/// Among the readings below `upto`, if any is a refusal then one is the
/// first.
proof fn lemma_least_refusal_below(readings: Seq<Result<u32, SchemaError>>, upto: int) -> (least:
    int)
    requires
        0 <= upto <= readings.len(),
        exists|i: int| 0 <= i < upto && (#[trigger] readings[i]) is Err,
    ensures
        0 <= least < upto,
        is_first_refusal(readings, least),
    decreases upto,
{
    let last = upto - 1;
    if exists|i: int| 0 <= i < last && (#[trigger] readings[i]) is Err {
        lemma_least_refusal_below(readings, last)
    } else {
        last
    }
}

/// What the positions read for the fields come to: with a position for every
/// field, the fields unchanged, each with its position; otherwise the error
/// of the first field, in declaration order, that was refused.
pub proof fn lemma_positioned_fields<T>(
    fields: Seq<FieldDecl<T>>,
    readings: Seq<Result<u32, SchemaError>>,
)
    requires
        readings.len() == fields.len(),
    ensures
        match positioned_fields(fields, readings) {
            Ok(specs) => {
                &&& specs.len() == fields.len()
                &&& forall|i: int|
                    0 <= i < fields.len() ==> {
                        &&& readings[i] == Ok::<u32, SchemaError>((#[trigger] specs[i]).position)
                        &&& specs[i].name == fields[i].name
                        &&& specs[i].declared_type == fields[i].declared_type
                    }
            },
            Err(e) => exists|i: int|
                is_first_refusal(readings, i) && readings[i] == Err::<u32, SchemaError>(e),
        },
{
    if exists|i: int| is_first_refusal(readings, i) {
        let first = choose|i: int| is_first_refusal(readings, i);
        assert(is_first_refusal(readings, first));
    } else {
        let specs = positioned_fields(fields, readings)->Ok_0;
        assert forall|i: int| 0 <= i < fields.len() implies readings[i] == Ok::<u32, SchemaError>(
            (#[trigger] specs[i]).position,
        ) by {
            if readings[i] is Err {
                let least = lemma_least_refusal_below(readings, i + 1);
            }
        }
    }
}

/// A field whose annotations cannot give it a position fails the compilation
/// of its record.
pub proof fn lemma_missing_position_fails<T>(
    input: RecordDecl<T>,
    readings: Seq<Result<u32, SchemaError>>,
    i: int,
)
    requires
        admits_readings(input.fields@, readings),
        0 <= i < input.fields.len(),
        lacks_position(input.fields[i]),
    ensures
        derived_fields(input, readings) is Err,
{
    assert(admits_reading(input.fields[i], readings[i]));
    let least = lemma_least_refusal_below(readings, i + 1);
}

/// Two fields for which the same position was read fail the compilation of
/// their record.
pub proof fn lemma_shared_position_fails<T>(
    input: RecordDecl<T>,
    readings: Seq<Result<u32, SchemaError>>,
    a: int,
    b: int,
)
    requires
        readings.len() == input.fields.len(),
        0 <= a < b < input.fields.len(),
        readings[a] is Ok,
        readings[a] == readings[b],
    ensures
        derived_fields(input, readings) is Err,
{
    lemma_positioned_fields(input.fields@, readings);
    if positioned_fields(input.fields@, readings) is Ok {
        let specs = positioned_fields(input.fields@, readings)->Ok_0;
        assert(readings[a] == Ok::<u32, SchemaError>(specs[a].position));
        assert(readings[b] == Ok::<u32, SchemaError>(specs[b].position));
        assert(specs[a].position == specs[b].position);
        lemma_distinct_iff_cardinality(specs);
    }
}

/// A struct with named fields compiles once a position was read for each of
/// its fields and no two of the positions are the same.
pub proof fn lemma_distinct_positions_compile<T>(
    input: RecordDecl<T>,
    readings: Seq<Result<u32, SchemaError>>,
)
    requires
        input.shape == TargetShape::NamedStruct,
        readings.len() == input.fields.len(),
        forall|i: int| 0 <= i < readings.len() ==> (#[trigger] readings[i]) is Ok,
        forall|a: int, b: int|
            0 <= a < b < readings.len() ==> #[trigger] readings[a] != #[trigger] readings[b],
    ensures
        derived_fields(input, readings) is Ok,
{
    lemma_positioned_fields(input.fields@, readings);
    assert forall|i: int| !is_first_refusal(readings, i) by {
        if 0 <= i < readings.len() {
            assert(readings[i] is Ok);
        }
    }
    let specs = positioned_fields(input.fields@, readings)->Ok_0;
    assert forall|a: int, b: int| 0 <= a < b < specs.len() implies specs[a].position
        != specs[b].position by {
        assert(readings[a] == Ok::<u32, SchemaError>(specs[a].position));
        assert(readings[b] == Ok::<u32, SchemaError>(specs[b].position));
    }
    lemma_distinct_iff_cardinality(specs);
}

/// Fields of which two share a position never compile into a schema.
pub proof fn lemma_duplicate_positions_fail<T>(declared: nat, positioned: Seq<FieldSpec<T>>)
    requires
        !distinct_positions(positioned),
    ensures
        compile_failure(declared, positioned) is Some,
{
    lemma_distinct_iff_cardinality(positioned);
}

/// Whether fields compile does not depend on the order in which they are
/// declared.
pub proof fn lemma_compilation_ignores_declaration_order<T>(
    declared: nat,
    fields: Seq<FieldSpec<T>>,
    shuffled: Seq<FieldSpec<T>>,
    order: Seq<int>,
)
    requires
        order.len() == shuffled.len(),
        shuffled.len() == fields.len(),
        forall|j: int|
            0 <= j < shuffled.len() ==> 0 <= #[trigger] order[j] < fields.len() && shuffled[j]
                == fields[order[j]],
        forall|slot: int| 0 <= slot < fields.len() ==> #[trigger] order.contains(slot),
    ensures
        compile_failure(declared, shuffled) == compile_failure(declared, fields),
{
    let one = positions(fields);
    let other = positions(shuffled);
    assert forall|position: u32| one.to_set().contains(position) == other.to_set().contains(
        position,
    ) by {
        if one.contains(position) {
            let slot = choose|slot: int| 0 <= slot < one.len() && one[slot] == position;
            assert(order.contains(slot));
            let j = choose|j: int| 0 <= j < order.len() && order[j] == slot;
            assert(other[j] == position);
        }
        if other.contains(position) {
            let j = choose|j: int| 0 <= j < other.len() && other[j] == position;
            assert(one[order[j]] == position);
        }
    }
    assert(one.to_set() =~= other.to_set());
}

/// Two wire orders of the same fields agree on their first `upto` entries.
proof fn lemma_wire_orders_agree_below<T>(
    fields: Seq<FieldSpec<T>>,
    one: Seq<usize>,
    other: Seq<usize>,
    upto: int,
)
    requires
        is_wire_order(fields, one),
        is_wire_order(fields, other),
        0 <= upto <= fields.len(),
    ensures
        forall|k: int| 0 <= k < upto ==> one[k] == other[k],
    decreases upto,
{
    if upto > 0 {
        let k = upto - 1;
        lemma_wire_orders_agree_below(fields, one, other, k);
        assert(occurs(other, one[k] as int));
        let l = choose|l: int| 0 <= l < other.len() && other[l] == one[k];
        assert(occurs(one, other[k] as int));
        let m = choose|m: int| 0 <= m < one.len() && one[m] == other[k];
        if l < k {
            assert(one[l] == other[l]);
            assert(fields[one[l] as int].position < fields[one[k] as int].position);
        }
        if m < k {
            assert(one[m] == other[m]);
            assert(fields[other[m] as int].position < fields[other[k] as int].position);
        }
        if l > k {
            assert(fields[other[k] as int].position < fields[other[l] as int].position);
            if m > k {
                assert(fields[one[k] as int].position < fields[one[m] as int].position);
            }
        }
    }
}

/// Fields have at most one wire order.
pub proof fn lemma_wire_order_is_unique<T>(
    fields: Seq<FieldSpec<T>>,
    one: Seq<usize>,
    other: Seq<usize>,
)
    requires
        is_wire_order(fields, one),
        is_wire_order(fields, other),
    ensures
        one == other,
{
    lemma_wire_orders_agree_below(fields, one, other, fields.len() as int);
    assert(one =~= other);
}

} // verus!
