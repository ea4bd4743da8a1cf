use sercore::codec::{Codec, FullName, Timestamp};
use sercore::convention::Convention;
use sercore::domain::Domain;
use sercore::json::{json_decode, json_encode};
use sercore::mapper::{decode, encode};
use sercore::schema::{FieldSchema, Schema, VariantSchema};
use sercore::toml_format::{toml_decode, toml_encode};

fn fld(name: &str, schema: Schema) -> FieldSchema {
    FieldSchema { name: name.to_string(), rename: None, optional: false, schema }
}

fn fld_opt(name: &str, schema: Schema) -> FieldSchema {
    FieldSchema { name: name.to_string(), rename: None, optional: true, schema }
}

fn fld_renamed(name: &str, wire: &str, schema: Schema) -> FieldSchema {
    FieldSchema { name: name.to_string(), rename: Some(wire.to_string()), optional: false, schema }
}

fn txt(s: &str) -> Domain {
    Domain::Text(s.to_string())
}

fn entry(name: &str, d: Domain) -> (String, Domain) {
    (name.to_string(), d)
}

fn login_schema() -> Schema {
    Schema::Record(
        Convention::Identity,
        vec![fld("username", Schema::Text), fld("password", Schema::Text)],
    )
}

#[test]
fn test_create_json_for_user_login_request() {
    let schema = login_schema();
    let login_request = Domain::Record(vec![
        entry("username", txt("testuser")),
        entry("password", txt("testpassword")),
    ]);

    let wire = encode(&login_request, &schema).unwrap();
    let json = json_encode(&wire, "type");
    assert_eq!(json, "{\"username\":\"testuser\",\"password\":\"testpassword\"}");

    let parsed = json_decode(&json).unwrap();
    let login_result = decode(&parsed, &schema).unwrap();
    assert_eq!(login_result, login_request);
}

#[test]
fn test_create_json_for_create_user_request() {
    let address_schema = Schema::Record(
        Convention::Identity,
        vec![
            fld("street", Schema::Text),
            fld("city", Schema::Text),
            fld("state", Schema::Text),
            fld("zip", Schema::Text),
        ],
    );
    let schema = Schema::Record(
        Convention::Identity,
        vec![
            fld("username", Schema::Text),
            fld("password", Schema::Text),
            fld("email", Schema::Text),
            fld_renamed("address", "alamat", address_schema),
        ],
    );
    let request = Domain::Record(vec![
        entry("username", txt("testuser")),
        entry("password", txt("testpassword")),
        entry("email", txt("test@localhost.com")),
        entry(
            "address",
            Domain::Record(vec![
                entry("street", txt("Jalan")),
                entry("city", txt("Kota")),
                entry("state", txt("Provinsi")),
                entry("zip", txt("134241")),
            ]),
        ),
    ]);

    let wire = encode(&request, &schema).unwrap();
    let json = json_encode(&wire, "type");
    assert!(json.contains("\"alamat\":{"));

    let parsed = json_decode(&json).unwrap();
    let result = decode(&parsed, &schema).unwrap();
    assert_eq!(result, request);
}

#[test]
fn test_create_json_from_array() {
    let schema = Schema::List(Box::new(Schema::Int));
    let numbers = Domain::List(vec![
        Domain::Int(10),
        Domain::Int(11),
        Domain::Int(12),
        Domain::Int(13),
        Domain::Int(14),
    ]);

    let wire = encode(&numbers, &schema).unwrap();
    let json = json_encode(&wire, "type");
    assert_eq!(json, "[10,11,12,13,14]");

    let parsed = json_decode(&json).unwrap();
    assert_eq!(decode(&parsed, &schema).unwrap(), numbers);
}

#[test]
fn test_vector() {
    let gender_schema = Schema::Union(
        "type".to_string(),
        vec![
            VariantSchema { tag: "Male".to_string(), conv: Convention::Identity, fields: vec![] },
            VariantSchema { tag: "Female".to_string(), conv: Convention::Identity, fields: vec![] },
        ],
    );
    let payment_schema = Schema::Union(
        "type".to_string(),
        vec![
            VariantSchema {
                tag: "CreditCard".to_string(),
                conv: Convention::Identity,
                fields: vec![fld("card_number", Schema::Text), fld("expiration", Schema::Text)],
            },
            VariantSchema {
                tag: "BankAccount".to_string(),
                conv: Convention::Identity,
                fields: vec![fld("account_number", Schema::Text), fld("bank_name", Schema::Text)],
            },
        ],
    );
    let schema = Schema::Record(
        Convention::ScreamingSnake,
        vec![
            fld("username", Schema::Text),
            fld("password", Schema::Text),
            fld("first_name", Schema::Text),
            fld("last_name", Schema::Text),
            fld("hobbies", Schema::List(Box::new(Schema::Text))),
            fld_opt("phone", Schema::Text),
            fld("gender", gender_schema),
            fld("payment", payment_schema),
        ],
    );
    let user = Domain::Record(vec![
        entry("username", txt("testuser")),
        entry("password", txt("testpassword")),
        entry("first_name", txt("Test User")),
        entry("last_name", txt("Test User")),
        entry("hobbies", Domain::List(vec![txt("reading"), txt("swimming")])),
        entry("phone", txt("08213213123")),
        entry("gender", Domain::Union("Male".to_string(), vec![])),
        entry(
            "payment",
            Domain::Union(
                "BankAccount".to_string(),
                vec![
                    entry("account_number", txt("1231231")),
                    entry("bank_name", txt("BCA")),
                ],
            ),
        ),
    ]);

    let wire = encode(&user, &schema).unwrap();
    let json = json_encode(&wire, "type");
    assert!(json.contains("\"HOBBIES\":[\"reading\",\"swimming\"]"));

    let parsed = json_decode(&json).unwrap();
    let result = decode(&parsed, &schema).unwrap();
    assert_eq!(result, user);
}

#[test]
fn test_map() {
    let schema = Schema::StrMap(Box::new(Schema::Int));
    let values = Domain::StrMap(vec![
        entry("one", Domain::Int(1)),
        entry("two", Domain::Int(2)),
        entry("three", Domain::Int(3)),
    ]);

    let wire = encode(&values, &schema).unwrap();
    let json = json_encode(&wire, "type");
    assert_eq!(json, "{\"one\":1,\"two\":2,\"three\":3}");

    let parsed = json_decode(&json).unwrap();
    assert_eq!(decode(&parsed, &schema).unwrap(), values);
}

fn category_schema() -> Schema {
    Schema::Record(
        Convention::Identity,
        vec![
            fld("id", Schema::Text),
            fld("name", Schema::Text),
            fld("created_at", Schema::Custom(Codec::TimestampMillis)),
            fld("updated_at", Schema::Custom(Codec::TimestampMillis)),
        ],
    )
}

fn category_value() -> Domain {
    Domain::Record(vec![
        entry("id", txt("gadget")),
        entry("name", txt("Gadget")),
        entry("created_at", Domain::Stamp(Timestamp { millis: 1_700_000_000_123 })),
        entry("updated_at", Domain::Stamp(Timestamp { millis: 1_700_000_111_456 })),
    ])
}

#[test]
fn test_chrono() {
    let schema = category_schema();
    let category = category_value();

    let wire = encode(&category, &schema).unwrap();
    let json = json_encode(&wire, "type");
    assert!(json.contains("\"created_at\":1700000000123"));

    let parsed = json_decode(&json).unwrap();
    assert_eq!(decode(&parsed, &schema).unwrap(), category);
}

#[test]
fn test_custom_serialize() {
    let schema = Schema::Record(
        Convention::Identity,
        vec![
            fld("id", Schema::Text),
            fld("name", Schema::Custom(Codec::FullName)),
            fld("created_at", Schema::Custom(Codec::TimestampMillis)),
            fld("updated_at", Schema::Custom(Codec::TimestampMillis)),
        ],
    );
    let admin = Domain::Record(vec![
        entry("id", txt("admin")),
        entry(
            "name",
            Domain::Name(FullName { first: "Rizki".to_string(), last: "Harahap".to_string() }),
        ),
        entry("created_at", Domain::Stamp(Timestamp { millis: 1_700_000_000_000 })),
        entry("updated_at", Domain::Stamp(Timestamp { millis: 1_700_000_000_001 })),
    ]);

    let wire = encode(&admin, &schema).unwrap();
    let json = json_encode(&wire, "type");
    assert!(json.contains("\"name\":\"Rizki Harahap\""));

    let parsed = json_decode(&json).unwrap();
    assert_eq!(decode(&parsed, &schema).unwrap(), admin);
}

#[test]
fn test_toml() {
    let schema = category_schema();
    let category = category_value();

    let wire = encode(&category, &schema).unwrap();
    let text = toml_encode(&wire, "type").unwrap();
    assert!(text.contains("id = \"gadget\""));

    let parsed = toml_decode(&text).unwrap();
    assert_eq!(decode(&parsed, &schema).unwrap(), category);
}
