use sercore::codec::{
    decode_full_name, deserialize, encode_full_name, serialize, Codec, FullName, Timestamp,
};
use sercore::convention::{apply_convention, Convention};
use sercore::domain::Domain;
use sercore::error::{DecodeError, EncodeError, RegistryError, ValueKind};
use sercore::json::{json_decode, json_encode};
use sercore::mapper::{decode, encode};
use sercore::registry::{decode_with, encode_with, CodecRegistry};
use sercore::schema::{FieldSchema, Schema, VariantSchema};
use sercore::toml_format::{toml_decode, toml_encode};
use sercore::value::IrValue;

fn fld(name: &str, schema: Schema) -> FieldSchema {
    FieldSchema { name: name.to_string(), rename: None, optional: false, schema }
}

fn fld_opt(name: &str, schema: Schema) -> FieldSchema {
    FieldSchema { name: name.to_string(), rename: None, optional: true, schema }
}

fn payment_schema() -> Schema {
    Schema::Union(
        "type".to_string(),
        vec![
            VariantSchema {
                tag: "CreditCard".to_string(),
                conv: Convention::Identity,
                fields: vec![fld("card_number", Schema::Text), fld("expiration", Schema::Text)],
            },
            VariantSchema {
                tag: "BankAccount".to_string(),
                conv: Convention::Identity,
                fields: vec![fld("account_number", Schema::Text), fld("bank_name", Schema::Text)],
            },
        ],
    )
}

#[test]
fn screaming_snake_transform_is_applied() {
    assert_eq!(apply_convention(Convention::ScreamingSnake, &"first_name".to_string()), "FIRST_NAME");
    assert_eq!(apply_convention(Convention::ScreamingSnake, &"zip2".to_string()), "ZIP2");
    assert_eq!(apply_convention(Convention::Identity, &"first_name".to_string()), "first_name");
}

#[test]
fn undeclared_tag_is_unknown_variant() {
    let schema = payment_schema();
    let v = IrValue::Variant("Paypal".to_string(), vec![]);
    assert_eq!(decode(&v, &schema), Err(DecodeError::UnknownVariant("Paypal".to_string())));

    let lowered = IrValue::Mapping(vec![(
        "type".to_string(),
        IrValue::Text("Paypal".to_string()),
    )]);
    assert_eq!(decode(&lowered, &schema), Err(DecodeError::UnknownVariant("Paypal".to_string())));
}

#[test]
fn shape_and_semantic_errors_are_distinct() {
    let name_schema = Schema::Custom(Codec::FullName);
    assert_eq!(
        decode(&IrValue::Int(3), &name_schema),
        Err(DecodeError::UnexpectedShape { expected: ValueKind::Text, found: ValueKind::Int }),
    );
    assert_eq!(
        decode(&IrValue::Text("OnlyOneToken".to_string()), &name_schema),
        Err(DecodeError::SemanticValidation(
            "expected exactly two space-separated tokens".to_string(),
        )),
    );
}

#[test]
fn absent_optional_field_is_omitted_and_restored() {
    let schema = Schema::Record(
        Convention::ScreamingSnake,
        vec![fld("username", Schema::Text), fld_opt("phone", Schema::Text)],
    );
    let user = Domain::Record(vec![
        ("username".to_string(), Domain::Text("testuser".to_string())),
        ("phone".to_string(), Domain::Absent),
    ]);

    let wire = encode(&user, &schema).unwrap();
    match &wire {
        IrValue::Mapping(entries) => {
            assert_eq!(entries.len(), 1);
            assert_eq!(entries[0].0, "USERNAME");
        },
        other => panic!("expected a mapping, got {:?}", other),
    }

    let restored = decode(&wire, &schema).unwrap();
    assert_eq!(restored, user);
}

#[test]
fn timestamp_codec_encodes_epoch_offset_millis() {
    let stamp = Timestamp { millis: 1500 };
    assert_eq!(serialize(&stamp), IrValue::Int(1500));
    assert_eq!(deserialize(&IrValue::Int(1500)), Ok(stamp));
}

#[test]
fn timestamp_out_of_window_is_out_of_range() {
    assert_eq!(deserialize(&IrValue::Int(i64::MAX)), Err(DecodeError::OutOfRange));
    assert_eq!(deserialize(&IrValue::Int(i64::MIN)), Err(DecodeError::OutOfRange));
    assert_eq!(
        deserialize(&IrValue::Bool(true)),
        Err(DecodeError::UnexpectedShape { expected: ValueKind::Int, found: ValueKind::Bool }),
    );
}

#[test]
fn full_name_codec_round_trips_two_tokens() {
    let name = FullName { first: "Rizki".to_string(), last: "Harahap".to_string() };
    assert_eq!(encode_full_name(&name), IrValue::Text("Rizki Harahap".to_string()));
    assert_eq!(decode_full_name(&IrValue::Text("Rizki Harahap".to_string())), Ok(name));
    assert_eq!(
        decode_full_name(&IrValue::Text("Rizki".to_string())),
        Err(DecodeError::SemanticValidation(
            "expected exactly two space-separated tokens".to_string(),
        )),
    );
}

#[test]
fn accessors_report_type_mismatch() {
    let v = IrValue::Text("x".to_string());
    assert_eq!(
        v.as_int(),
        Err(DecodeError::TypeMismatch { expected: ValueKind::Int, found: ValueKind::Text }),
    );
    assert_eq!(
        v.as_bool(),
        Err(DecodeError::TypeMismatch { expected: ValueKind::Bool, found: ValueKind::Text }),
    );
    assert_eq!(IrValue::Int(7).as_int(), Ok(7));
    assert_eq!(v.as_text().unwrap(), "x");
}

#[test]
fn malformed_text_is_a_parse_error() {
    assert!(matches!(json_decode("{\"a\":"), Err(DecodeError::Parse(_))));
    assert!(matches!(json_decode("1.5"), Err(DecodeError::Parse(_))));
    assert!(matches!(toml_decode("= nonsense"), Err(DecodeError::Parse(_))));
}

#[test]
fn toml_cannot_carry_null() {
    assert_eq!(toml_encode(&IrValue::Null, "type"), Err(EncodeError::Unrepresentable));
}

#[test]
fn missing_required_field_is_reported() {
    let schema = Schema::Record(Convention::Identity, vec![fld("username", Schema::Text)]);
    let empty = IrValue::Mapping(vec![]);
    assert_eq!(decode(&empty, &schema), Err(DecodeError::MissingField("username".to_string())));
}

#[test]
fn registry_refuses_duplicates_and_dispatches() {
    let mut reg = CodecRegistry::new();
    assert_eq!(reg.register(1, Codec::TimestampMillis), Ok(()));
    assert_eq!(reg.register(2, Codec::FullName), Ok(()));
    assert_eq!(reg.register(1, Codec::FullName), Err(RegistryError::DuplicateCodec));
    assert_eq!(reg.lookup(1), Some(Codec::TimestampMillis));
    assert_eq!(reg.lookup(9), None);

    let stamp = Domain::Stamp(Timestamp { millis: 1500 });
    let encoded = encode_with(&reg, 1, &stamp, &Schema::Int).unwrap();
    assert_eq!(encoded, IrValue::Int(1500));
    assert_eq!(decode_with(&reg, 1, &encoded, &Schema::Int).unwrap(), stamp);

    let plain = Domain::Int(42);
    let fallback = encode_with(&reg, 9, &plain, &Schema::Int).unwrap();
    assert_eq!(fallback, IrValue::Int(42));
    assert_eq!(decode_with(&reg, 9, &fallback, &Schema::Int).unwrap(), plain);
}

#[test]
fn mismatched_value_is_refused_on_encode() {
    assert_eq!(
        encode(&Domain::Bool(true), &Schema::Int),
        Err(EncodeError::SchemaMismatch),
    );
    let json = json_encode(&IrValue::Text("a\"b".to_string()), "type");
    assert_eq!(json, "\"a\\\"b\"");
}

#[test]
fn lowered_union_tag_must_be_text() {
    let schema = payment_schema();
    let lowered = IrValue::Mapping(vec![("type".to_string(), IrValue::Int(1))]);
    assert_eq!(
        decode(&lowered, &schema),
        Err(DecodeError::UnexpectedShape { expected: ValueKind::Text, found: ValueKind::Int }),
    );
    let no_tag = IrValue::Mapping(vec![]);
    assert_eq!(decode(&no_tag, &schema), Err(DecodeError::MissingField("type".to_string())));
}
