use serde_ordered::decode::{decode_element, decode_sequence, Cause, DecodeError};
use serde_ordered::schema::{compile_schema, FieldSpec, RecordSchema};
use serde_ordered::value::{FieldType, FieldValue};
use serde_value::{DeserializerError, Value};

fn schema(fields: Vec<(&str, FieldType, u32)>) -> RecordSchema<FieldType> {
    let declared = fields.len();
    let positioned = fields
        .into_iter()
        .map(|(name, declared_type, position)| FieldSpec {
            name: name.to_string(),
            declared_type,
            position,
        })
        .collect();
    compile_schema("Sample".to_string(), declared, positioned).unwrap()
}

fn text(value: &str) -> Value {
    Value::String(value.to_string())
}

fn decoded_text(value: &str) -> FieldValue {
    FieldValue::Text(value.to_string())
}

fn optional(inner: FieldType) -> FieldType {
    FieldType::Optional(Box::new(inner))
}

fn failing_field(failure: DecodeError) -> String {
    match failure {
        DecodeError::Element { field, .. } => field,
        DecodeError::MissingField => panic!("a field is missing"),
    }
}

#[test]
fn element_decodes_into_bool() {
    assert_eq!(decode_element(&FieldType::Bool, Value::Bool(true)).unwrap(), FieldValue::Bool(true));
    assert_eq!(decode_element(&FieldType::Bool, Value::Bool(false)).unwrap(), FieldValue::Bool(false));
    assert!(matches!(
        decode_element(&FieldType::Bool, Value::U8(1)),
        Err(Cause::Value(DeserializerError::InvalidType(..)))
    ));
}

#[test]
fn element_decodes_into_signed() {
    assert_eq!(decode_element(&FieldType::Signed, Value::I8(-5)).unwrap(), FieldValue::Signed(-5));
    assert_eq!(decode_element(&FieldType::Signed, Value::U32(70000)).unwrap(), FieldValue::Signed(70000));
    assert_eq!(
        decode_element(&FieldType::Signed, Value::I64(i64::MIN)).unwrap(),
        FieldValue::Signed(i64::MIN)
    );
    assert!(decode_element(&FieldType::Signed, Value::U64(u64::MAX)).is_err());
    assert!(decode_element(&FieldType::Signed, text("1")).is_err());
}

#[test]
fn element_decodes_into_unsigned() {
    assert_eq!(decode_element(&FieldType::Unsigned, Value::U64(u64::MAX)).unwrap(), FieldValue::Unsigned(u64::MAX));
    assert_eq!(decode_element(&FieldType::Unsigned, Value::I16(12)).unwrap(), FieldValue::Unsigned(12));
    assert!(decode_element(&FieldType::Unsigned, Value::I16(-12)).is_err());
    assert!(decode_element(&FieldType::Unsigned, Value::Unit).is_err());
}

#[test]
fn element_decodes_into_text() {
    assert_eq!(decode_element(&FieldType::Text, text("biz")).unwrap(), decoded_text("biz"));
    assert_eq!(decode_element(&FieldType::Text, text("")).unwrap(), decoded_text(""));
    assert!(matches!(
        decode_element(&FieldType::Text, Value::U8(1)),
        Err(Cause::Value(DeserializerError::InvalidType(..)))
    ));
}

#[test]
fn element_decodes_into_optional() {
    let ty = optional(FieldType::Text);
    assert_eq!(decode_element(&ty, Value::Unit).unwrap(), FieldValue::Optional(None));
    assert_eq!(decode_element(&ty, Value::Option(None)).unwrap(), FieldValue::Optional(None));
    let some = FieldValue::Optional(Some(Box::new(decoded_text("biz"))));
    assert_eq!(decode_element(&ty, text("biz")).unwrap(), some);
    assert_eq!(decode_element(&ty, Value::Option(Some(Box::new(text("biz"))))).unwrap(), some);
    assert!(decode_element(&ty, Value::Bool(true)).is_err());

    let twice = optional(optional(FieldType::Signed));
    assert_eq!(
        decode_element(&twice, Value::I32(3)).unwrap(),
        FieldValue::Optional(Some(Box::new(FieldValue::Optional(Some(Box::new(
            FieldValue::Signed(3)
        ))))))
    );
}

#[test]
fn element_decodes_into_record() {
    let ty = || {
        FieldType::Record(schema(vec![("name", FieldType::Text, 1), ("count", FieldType::Unsigned, 0)]))
    };
    let inner = vec![Value::U8(100), text("100")];
    assert_eq!(
        decode_element(&ty(), Value::Seq(inner)).unwrap(),
        FieldValue::Record(vec![decoded_text("100"), FieldValue::Unsigned(100)])
    );
    assert!(matches!(
        decode_element(&ty(), text("100")),
        Err(Cause::Value(DeserializerError::InvalidType(..)))
    ));
    assert!(matches!(decode_element(&ty(), Value::Unit), Err(Cause::Value(_))));
    match decode_element(&ty(), Value::Seq(vec![Value::U8(100)])) {
        Err(Cause::Record(failure)) => assert!(matches!(*failure, DecodeError::MissingField)),
        other => panic!("not a failure of the record: {:?}", other),
    }
    match decode_element(&ty(), Value::Seq(vec![text("x"), text("100")])) {
        Err(Cause::Record(failure)) => assert_eq!(failing_field(*failure), "count"),
        other => panic!("not a failure of the record: {:?}", other),
    }

    let empty = FieldType::Record(schema(vec![]));
    assert_eq!(decode_element(&empty, Value::Seq(vec![])).unwrap(), FieldValue::Record(vec![]));
    let maybe = optional(ty());
    assert_eq!(decode_element(&maybe, Value::Unit).unwrap(), FieldValue::Optional(None));
}

#[test]
fn each_field_is_the_decoded_element_at_its_position() {
    let schema = schema(vec![
        ("late", FieldType::Text, 4),
        ("flag", FieldType::Bool, 0),
        ("count", FieldType::Unsigned, 2),
    ]);
    let elements = vec![Value::Bool(true), Value::Unit, Value::U8(9), text("skipped"), text("end")];
    let record = decode_sequence(&schema, elements).unwrap();
    assert_eq!(record, vec![decoded_text("end"), FieldValue::Bool(true), FieldValue::Unsigned(9)]);
}

#[test]
fn elements_at_other_positions_play_no_part() {
    let schema = schema(vec![("x", FieldType::Text, 1), ("y", FieldType::Signed, 3)]);
    let one = vec![Value::Unit, text("x"), Value::Bool(true), Value::I8(-1)];
    let other = vec![Value::Seq(vec![]), text("x"), text("noise"), Value::I8(-1), Value::U8(0)];
    let expected = vec![decoded_text("x"), FieldValue::Signed(-1)];
    assert_eq!(decode_sequence(&schema, one).unwrap(), expected);
    assert_eq!(decode_sequence(&schema, other).unwrap(), expected);
}

#[test]
fn elements_after_the_last_required_position_change_nothing() {
    let schema = schema(vec![("x", FieldType::Text, 0), ("y", FieldType::Signed, 1)]);
    let elements = vec![text("x"), Value::I8(-1)];
    let longer = vec![text("x"), Value::I8(-1), Value::Unit, text("more"), Value::Seq(vec![])];
    assert_eq!(
        decode_sequence(&schema, elements).unwrap(),
        decode_sequence(&schema, longer).unwrap()
    );

    let failing = vec![text("x"), text("no number")];
    let longer = vec![text("x"), text("no number"), Value::Unit];
    assert_eq!(failing_field(decode_sequence(&schema, failing).unwrap_err()), "y");
    assert_eq!(failing_field(decode_sequence(&schema, longer).unwrap_err()), "y");
}

#[test]
fn sequence_that_ends_at_a_required_position_misses_a_field() {
    let schema = schema(vec![("x", FieldType::Text, 1), ("y", FieldType::Text, 2)]);
    for length in 0..3usize {
        let elements: Vec<Value> = (0..length).map(|_| text("e")).collect();
        assert!(matches!(
            decode_sequence(&schema, elements).unwrap_err(),
            DecodeError::MissingField
        ));
    }
    let elements: Vec<Value> = (0..3usize).map(|_| text("e")).collect();
    assert!(decode_sequence(&schema, elements).is_ok());
}

#[test]
fn failing_element_ends_the_decoding_before_a_field_is_missed() {
    let schema = schema(vec![("far", FieldType::Text, 9), ("near", FieldType::Bool, 1)]);
    let elements = vec![Value::Unit, text("no bool")];
    assert_eq!(failing_field(decode_sequence(&schema, elements).unwrap_err()), "near");
}

#[test]
fn first_failing_element_of_the_sequence_is_reported() {
    let schema = schema(vec![
        ("c", FieldType::Bool, 2),
        ("a", FieldType::Bool, 0),
        ("b", FieldType::Bool, 1),
    ]);
    let elements = vec![Value::Bool(true), text("b"), text("c")];
    match decode_sequence(&schema, elements).unwrap_err() {
        DecodeError::Element { field, cause } => {
            assert_eq!(field, "b");
            assert!(matches!(cause, Cause::Value(DeserializerError::InvalidType(..))));
        }
        DecodeError::MissingField => panic!("every position is supplied"),
    }
}

#[test]
fn declaration_order_does_not_change_what_a_field_decodes_to() {
    let one = schema(vec![("x", FieldType::Text, 1), ("y", FieldType::Signed, 0)]);
    let other = schema(vec![("y", FieldType::Signed, 0), ("x", FieldType::Text, 1)]);
    let elements = || vec![Value::I8(4), text("four")];
    let first = decode_sequence(&one, elements()).unwrap();
    let second = decode_sequence(&other, elements()).unwrap();
    assert_eq!(first, vec![decoded_text("four"), FieldValue::Signed(4)]);
    assert_eq!(second, vec![FieldValue::Signed(4), decoded_text("four")]);

    let short = || vec![Value::I8(4)];
    assert!(matches!(decode_sequence(&one, short()).unwrap_err(), DecodeError::MissingField));
    assert!(matches!(decode_sequence(&other, short()).unwrap_err(), DecodeError::MissingField));

    let bad = || vec![text("four"), text("four")];
    assert_eq!(failing_field(decode_sequence(&one, bad()).unwrap_err()), "y");
    assert_eq!(failing_field(decode_sequence(&other, bad()).unwrap_err()), "y");
}

#[test]
fn field_at_a_position_beyond_every_sequence_is_never_supplied() {
    let schema = schema(vec![("x", FieldType::Text, 0), ("y", FieldType::Text, 4294967295)]);
    let elements = vec![text("x"), text("y")];
    assert!(matches!(decode_sequence(&schema, elements).unwrap_err(), DecodeError::MissingField));

    let elements = vec![Value::Unit, text("y")];
    assert_eq!(failing_field(decode_sequence(&schema, elements).unwrap_err()), "x");
}

#[test]
fn record_without_fields_decodes_from_any_sequence() {
    let schema = schema(vec![]);
    assert_eq!(decode_sequence(&schema, vec![]).unwrap(), vec![]);
    assert_eq!(decode_sequence(&schema, vec![Value::Unit, text("x")]).unwrap(), vec![]);
}

#[test]
fn decode_errors_say_what_went_wrong() {
    let schema = schema(vec![("bif", FieldType::Text, 0)]);
    let failure = decode_sequence(&schema, vec![Value::Bool(true)]).unwrap_err();
    let cause = Value::Bool(true).deserialize_into::<String>().unwrap_err();
    assert_eq!(
        failure.message(),
        format!("failed to deserialize field `bif` because {:?}", cause)
    );
    assert!(failure.message().contains("InvalidType(Bool(true)"));
    assert_eq!(
        DecodeError::MissingField.message(),
        "position outside the bounds of the message"
    );
}
