use serde_ordered::decode::{decode_element, decode_sequence, Cause, DecodeError};
use serde_ordered::schema::{
    derive_order, Annotation, FieldDecl, RecordDecl, RecordSchema, TargetShape,
};
use serde_ordered::value::{FieldType, FieldValue};
use serde_value::Value;

fn order(position: &str) -> Vec<Annotation> {
    vec![Annotation { name: "order".to_string(), arguments: Some(position.to_string()) }]
}

fn slim_foo() -> RecordSchema<FieldType> {
    derive_order(RecordDecl {
        name: "SlimFoo".to_string(),
        shape: TargetShape::NamedStruct,
        fields: vec![
            FieldDecl {
                name: "biz".to_string(),
                declared_type: FieldType::Optional(Box::new(FieldType::Text)),
                annotations: order("1"),
            },
            FieldDecl {
                name: "bar".to_string(),
                declared_type: FieldType::Record(slim_bar()),
                annotations: order("2"),
            },
        ],
    })
    .unwrap()
}

fn slim_bar() -> RecordSchema<FieldType> {
    derive_order(RecordDecl {
        name: "SlimBar".to_string(),
        shape: TargetShape::NamedStruct,
        fields: vec![FieldDecl {
            name: "bif".to_string(),
            declared_type: FieldType::Text,
            annotations: order("1"),
        }],
    })
    .unwrap()
}

fn bif(bar: &FieldValue) -> &FieldValue {
    match bar {
        FieldValue::Record(fields) => &fields[0],
        other => panic!("not a record: {:?}", other),
    }
}

#[test]
fn deserialize_json() {
    let foo_str = r#"[1, null, [100, "100"]]"#;
    let elements = serde_json::from_str::<Vec<Value>>(&foo_str).unwrap();
    let slim_foo = decode_sequence(&slim_foo(), elements).unwrap();

    assert!(slim_foo[0] == FieldValue::Optional(None));
    assert_eq!(*bif(&slim_foo[1]), FieldValue::Text("100".to_string()));
}

#[test]
fn deserialize_messagepack() {
    let foo = (0i32, Some("biz".to_string()), (0i32, "99".to_string()), 0u64);

    let foo_bytes = rmp_serde::to_vec(&foo).unwrap();

    let elements = rmp_serde::from_slice::<Vec<Value>>(&foo_bytes).unwrap();
    let slim_foo = decode_sequence(&slim_foo(), elements).unwrap();

    assert_eq!(
        slim_foo[0],
        FieldValue::Optional(Some(Box::new(FieldValue::Text("biz".to_string()))))
    );
    assert_eq!(*bif(&slim_foo[1]), FieldValue::Text("99".to_string()));
}

#[test]
fn sequence_of_one_element_misses_both_fields() {
    let elements = vec![Value::String("only".to_string())];
    let failure = decode_sequence(&slim_foo(), elements).unwrap_err();
    assert!(matches!(failure, DecodeError::MissingField));
    assert_eq!(failure.message(), "position outside the bounds of the message");
}

#[test]
fn whole_message_decodes_as_one_element() {
    let message = serde_json::from_str::<Value>(r#"[1, "biz", ["100", "100"], true]"#).unwrap();
    let slim_foo = decode_element(&FieldType::Record(slim_foo()), message).unwrap();
    assert_eq!(
        slim_foo,
        FieldValue::Record(vec![
            FieldValue::Optional(Some(Box::new(FieldValue::Text("biz".to_string())))),
            FieldValue::Record(vec![FieldValue::Text("100".to_string())]),
        ])
    );
}

#[test]
fn nested_record_that_is_no_sequence_fails_the_outer_record() {
    let elements = vec![Value::Unit, Value::Unit, Value::U8(7)];
    let failure = decode_sequence(&slim_foo(), elements).unwrap_err();
    match failure {
        DecodeError::Element { field, cause } => {
            assert_eq!(field, "bar");
            assert!(matches!(cause, Cause::Value(serde_value::DeserializerError::InvalidType(..))));
        }
        DecodeError::MissingField => panic!("the sequence holds every position"),
    }
}

#[test]
fn nested_record_that_is_too_short_fails_the_outer_record() {
    let elements = vec![Value::Unit, Value::Unit, Value::Seq(vec![Value::U8(100)])];
    let failure = decode_sequence(&slim_foo(), elements).unwrap_err();
    assert_eq!(
        failure.message(),
        "failed to deserialize field `bar` because position outside the bounds of the message"
    );
    match failure {
        DecodeError::Element { field, cause: Cause::Record(nested) } => {
            assert_eq!(field, "bar");
            assert!(matches!(*nested, DecodeError::MissingField));
        }
        other => panic!("not a failure of the nested record: {:?}", other),
    }
}

#[test]
fn failure_inside_a_nested_record_names_both_fields() {
    let elements = vec![Value::Unit, Value::Unit, Value::Seq(vec![Value::U8(100), Value::U8(100)])];
    let failure = decode_sequence(&slim_foo(), elements).unwrap_err();
    let cause = Value::U8(100).deserialize_into::<String>().unwrap_err();
    assert_eq!(
        failure.message(),
        format!(
            "failed to deserialize field `bar` because failed to deserialize field `bif` because {:?}",
            cause
        )
    );
}
