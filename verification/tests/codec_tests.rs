use directory_core::codec::{deserialize, deserialize_attribute, serialize};
use directory_core::schema::{AttributeList, AttributeSchema};
use directory_core::types::{
    Attribute, AttributeType, AttributeValue, DomainError, Scalar, Timestamp,
};

fn declared(name: &str, attribute_type: AttributeType, is_list: bool) -> AttributeSchema {
    AttributeSchema {
        name: name.to_string(),
        attribute_type,
        is_list,
        is_visible: true,
        is_editable: true,
        is_hardcoded: false,
        is_readonly: false,
    }
}

#[test]
fn integer_is_stored_moved_up_in_little_endian() {
    assert_eq!(
        serialize(&AttributeValue::Single(Scalar::Integer(512))),
        vec![0x00, 0x02, 0, 0, 0, 0, 0, 0x80]
    );
    assert_eq!(
        serialize(&AttributeValue::Single(Scalar::Integer(-1))),
        vec![0xff, 0xff, 0xff, 0xff, 0xff, 0xff, 0xff, 0x7f]
    );
    assert_eq!(serialize(&AttributeValue::Single(Scalar::Integer(i64::MIN))), vec![0; 8]);
    assert_eq!(serialize(&AttributeValue::Single(Scalar::Integer(i64::MAX))), vec![0xff; 8]);
}

#[test]
fn text_is_stored_with_its_length() {
    assert_eq!(
        serialize(&AttributeValue::Single(Scalar::String("value".to_string()))),
        vec![5, 0, 0, 0, 0, 0, 0, 0, b'v', b'a', b'l', b'u', b'e']
    );
    assert_eq!(
        serialize(&AttributeValue::Single(Scalar::String("é".to_string()))),
        vec![2, 0, 0, 0, 0, 0, 0, 0, 0xc3, 0xa9]
    );
    assert_eq!(serialize(&AttributeValue::Single(Scalar::String(String::new()))), vec![0; 8]);
}

#[test]
fn photo_and_time_are_stored() {
    assert_eq!(
        serialize(&AttributeValue::Single(Scalar::JpegPhoto(vec![0xff, 0xd8]))),
        vec![2, 0, 0, 0, 0, 0, 0, 0, 0xff, 0xd8]
    );
    assert_eq!(
        serialize(&AttributeValue::Single(Scalar::DateTime(Timestamp { seconds: 1, nanoseconds: 2 }))),
        vec![1, 0, 0, 0, 0, 0, 0, 0x80, 2, 0, 0, 0]
    );
}

#[test]
fn collection_is_stored_with_its_count() {
    let list = AttributeValue::List(
        AttributeType::Integer,
        vec![Scalar::Integer(1), Scalar::Integer(2)],
    );
    assert_eq!(
        serialize(&list),
        vec![2, 0, 0, 0, 0, 0, 0, 0, 1, 0, 0, 0, 0, 0, 0, 0x80, 2, 0, 0, 0, 0, 0, 0, 0x80]
    );
    assert_eq!(serialize(&AttributeValue::List(AttributeType::String, Vec::new())), vec![0; 8]);
}

#[test]
fn every_kind_of_value_is_read_back() {
    let values = vec![
        (AttributeType::String, AttributeValue::Single(Scalar::String("Grüße".to_string()))),
        (AttributeType::Integer, AttributeValue::Single(Scalar::Integer(-42))),
        (AttributeType::JpegPhoto, AttributeValue::Single(Scalar::JpegPhoto(vec![1, 2, 3]))),
        (
            AttributeType::DateTime,
            AttributeValue::Single(Scalar::DateTime(Timestamp { seconds: -5, nanoseconds: 999_999_999 })),
        ),
        (
            AttributeType::String,
            AttributeValue::List(
                AttributeType::String,
                vec![Scalar::String("b".to_string()), Scalar::String("a".to_string())],
            ),
        ),
        (AttributeType::Integer, AttributeValue::List(AttributeType::Integer, Vec::new())),
        (
            AttributeType::JpegPhoto,
            AttributeValue::List(
                AttributeType::JpegPhoto,
                vec![Scalar::JpegPhoto(Vec::new()), Scalar::JpegPhoto(vec![9])],
            ),
        ),
        (
            AttributeType::DateTime,
            AttributeValue::List(
                AttributeType::DateTime,
                vec![Scalar::DateTime(Timestamp { seconds: 0, nanoseconds: 0 })],
            ),
        ),
    ];
    for (attribute_type, value) in values {
        let is_list = matches!(value, AttributeValue::List(_, _));
        let bytes = serialize(&value);
        assert_eq!(deserialize(attribute_type, is_list, &bytes), Some(value));
    }
}

#[test]
fn bytes_that_are_no_stored_value_are_not_read() {
    assert_eq!(deserialize(AttributeType::Integer, false, &[0; 7]), None);
    assert_eq!(deserialize(AttributeType::Integer, false, &[0; 9]), None);
    assert_eq!(deserialize(AttributeType::DateTime, false, &[0; 11]), None);
    assert_eq!(deserialize(AttributeType::String, false, &[3, 0, 0, 0, 0, 0, 0, 0, b'a', b'b']), None);
    assert_eq!(deserialize(AttributeType::String, false, &[1, 0, 0, 0, 0, 0, 0, 0, 0xff]), None);
    assert_eq!(deserialize(AttributeType::String, false, &[1, 0, 0, 0, 0, 0, 0, 0, b'a', b'b']), None);
    assert_eq!(deserialize(AttributeType::JpegPhoto, false, &[0xff; 8]), None);
    assert_eq!(deserialize(AttributeType::Integer, true, &[2, 0, 0, 0, 0, 0, 0, 0, 1, 0, 0, 0, 0, 0, 0, 0x80]), None);
    assert_eq!(deserialize(AttributeType::Integer, true, &[0, 0, 0, 0, 0, 0, 0, 0, 1]), None);
    assert_eq!(deserialize(AttributeType::Integer, true, &[0xff; 8]), None);
    assert_eq!(deserialize(AttributeType::Integer, true, &[]), None);
}

#[test]
fn stored_attribute_is_read_by_its_declared_type() {
    let schema = AttributeList {
        attributes: vec![
            declared("gid", AttributeType::Integer, false),
            declared("mails", AttributeType::String, true),
        ],
    };
    assert_eq!(
        deserialize_attribute("gid".to_string(), &[0x00, 0x02, 0, 0, 0, 0, 0, 0x80], &schema),
        Ok(Attribute { name: "gid".to_string(), value: AttributeValue::Single(Scalar::Integer(512)) })
    );
    assert_eq!(
        deserialize_attribute(
            "mails".to_string(),
            &[1, 0, 0, 0, 0, 0, 0, 0, 1, 0, 0, 0, 0, 0, 0, 0, b'a'],
            &schema
        ),
        Ok(Attribute {
            name: "mails".to_string(),
            value: AttributeValue::List(AttributeType::String, vec![Scalar::String("a".to_string())]),
        })
    );
    assert_eq!(
        deserialize_attribute("gid".to_string(), &[1, 2, 3], &schema),
        Err(DomainError::DecodeError("gid".to_string()))
    );
    assert_eq!(
        deserialize_attribute("uid".to_string(), &[0; 8], &schema),
        Err(DomainError::SchemaMismatch("uid".to_string()))
    );
}

#[test]
fn first_declaration_of_a_name_decides() {
    let schema = AttributeList {
        attributes: vec![
            declared("gid", AttributeType::Integer, false),
            declared("gid", AttributeType::String, false),
        ],
    };
    assert_eq!(schema.get_attribute_type("gid"), Some(AttributeType::Integer));
    assert_eq!(schema.get_attribute_type("Gid"), None);
    assert!(schema.contains("gid"));
    assert!(!schema.contains("gi"));
    assert_eq!(
        deserialize_attribute("gid".to_string(), &[0; 8], &schema),
        Ok(Attribute {
            name: "gid".to_string(),
            value: AttributeValue::Single(Scalar::Integer(i64::MIN)),
        })
    );
}
