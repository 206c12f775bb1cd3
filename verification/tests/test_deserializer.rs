use combee::deserializer::{from_row, Decoded, Deserializer, Field, Row, Shape};

fn basic_row(name: &str, age: u32) -> Row {
    Row {
        fields: vec![
            (String::from("name"), Field::Str(String::from(name))),
            (String::from("age"), Field::UInt(age)),
        ],
    }
}

fn basic_shape() -> Shape {
    Shape::Record(vec![
        (String::from("name"), Shape::Str),
        (String::from("age"), Shape::U32),
    ])
}

#[test]
fn test_decode_basic_row() {
    let row = basic_row("Daniel", 26);
    let decoded = from_row(&row, &basic_shape()).unwrap();
    assert_eq!(
        decoded,
        Decoded::Record(vec![
            (String::from("name"), Decoded::Str(String::from("Daniel"))),
            (String::from("age"), Decoded::U32(26)),
        ])
    );
}

#[test]
fn test_decode_cursor_directly() {
    let row = basic_row("Sergio", 30);
    let shape = basic_shape();
    let mut de = Deserializer::from_row(&row);
    let decoded = de.deserialize(&shape).unwrap();
    match decoded {
        Decoded::Record(pairs) => {
            assert_eq!(pairs.len(), 2);
            assert_eq!(pairs[1].1, Decoded::U32(30));
        }
        other => panic!("expected a record, got {:?}", other),
    }
}

// A record is filled in declaration order even when the source row names
// its fields in another order, and unread extra fields are no error.
#[test]
fn test_decode_reordered_and_extra_fields() {
    let row = Row {
        fields: vec![
            (String::from("age"), Field::UInt(22)),
            (String::from("extra"), Field::Bool(true)),
            (String::from("name"), Field::Str(String::from("Leticia"))),
        ],
    };
    let decoded = from_row(&row, &basic_shape()).unwrap();
    assert_eq!(
        decoded,
        Decoded::Record(vec![
            (String::from("name"), Decoded::Str(String::from("Leticia"))),
            (String::from("age"), Decoded::U32(22)),
        ])
    );
}

// Decoding a nested record whose field "childrens" is a sequence of groups
// holding a boolean field "b" and a list-of-float field "y" recursively
// produces the typed children; an empty sequence is a valid complete
// decode.
#[test]
fn test_decode_nested_childrens() {
    let child_shape = Shape::Record(vec![
        (String::from("b"), Shape::Bool),
        (String::from("y"), Shape::List(Box::new(Shape::F32))),
    ]);
    let shape = Shape::Record(vec![
        (String::from("index"), Shape::Str),
        (String::from("childrens"), Shape::List(Box::new(child_shape))),
    ]);

    let one_bits = 1.0f32.to_bits();
    let two_bits = 2.5f32.to_bits();
    let child = Field::Group(Row {
        fields: vec![
            (String::from("b"), Field::Bool(true)),
            (
                String::from("y"),
                Field::ListInternal(vec![Field::Float(one_bits), Field::Float(two_bits)]),
            ),
        ],
    });
    let row = Row {
        fields: vec![
            (String::from("index"), Field::Str(String::from("xpto"))),
            (String::from("childrens"), Field::ListInternal(vec![child])),
        ],
    };
    let decoded = from_row(&row, &shape).unwrap();
    assert_eq!(
        decoded,
        Decoded::Record(vec![
            (String::from("index"), Decoded::Str(String::from("xpto"))),
            (
                String::from("childrens"),
                Decoded::List(vec![Decoded::Record(vec![
                    (String::from("b"), Decoded::Bool(true)),
                    (
                        String::from("y"),
                        Decoded::List(vec![Decoded::F32(one_bits), Decoded::F32(two_bits)]),
                    ),
                ])])
            ),
        ])
    );

    let empty_row = Row {
        fields: vec![
            (String::from("index"), Field::Str(String::from("abcd"))),
            (String::from("childrens"), Field::ListInternal(vec![])),
        ],
    };
    let decoded_empty = from_row(&empty_row, &shape).unwrap();
    assert_eq!(
        decoded_empty,
        Decoded::Record(vec![
            (String::from("index"), Decoded::Str(String::from("abcd"))),
            (String::from("childrens"), Decoded::List(vec![])),
        ])
    );
}

// Requesting a scalar u32 against a stored string fails with a
// decode-mismatch message that names the disagreement.
#[test]
fn test_decode_u32_against_string_fails() {
    let row = Row {
        fields: vec![(String::from("name"), Field::Str(String::from("Daniel")))],
    };
    let shape = Shape::Record(vec![(String::from("name"), Shape::U32)]);
    let err = from_row(&row, &shape).unwrap_err();
    assert!(err.message.contains("string"));
    assert_eq!(err.message, "invalid type: string, expected uint32");
}

#[test]
fn test_decode_decimal_unsupported() {
    let row = Row {
        fields: vec![(String::from("price"), Field::Decimal)],
    };
    let shape = Shape::Record(vec![(String::from("price"), Shape::U64)]);
    let err = from_row(&row, &shape).unwrap_err();
    assert_eq!(err.message, "invalid type: decimal, expected uint64");
}

#[test]
fn test_decode_missing_field() {
    let row = Row {
        fields: vec![(String::from("name"), Field::Str(String::from("Daniel")))],
    };
    let err = from_row(&row, &basic_shape()).unwrap_err();
    assert_eq!(err.message, "missing field age");
}

#[test]
fn test_decode_duplicate_field() {
    let row = Row {
        fields: vec![
            (String::from("name"), Field::Str(String::from("Daniel"))),
            (String::from("age"), Field::UInt(26)),
            (String::from("age"), Field::UInt(27)),
        ],
    };
    let err = from_row(&row, &basic_shape()).unwrap_err();
    assert_eq!(err.message, "duplicate field age");
}

#[test]
fn test_decode_scalar_exact_kinds() {
    let row = Row {
        fields: vec![
            (String::from("small"), Field::Byte(-5)),
            (String::from("wide"), Field::ULong(42)),
            (String::from("day"), Field::Date(12)),
            (String::from("at"), Field::TimestampMillis(321)),
            (String::from("raw"), Field::Bytes(vec![1, 2, 3])),
            (String::from("gone"), Field::Null),
        ],
    };
    let shape = Shape::Record(vec![
        (String::from("small"), Shape::I8),
        (String::from("wide"), Shape::U64),
        (String::from("day"), Shape::U32),
        (String::from("at"), Shape::U64),
        (String::from("raw"), Shape::Bytes),
        (String::from("gone"), Shape::Unit),
    ]);
    let decoded = from_row(&row, &shape).unwrap();
    assert_eq!(
        decoded,
        Decoded::Record(vec![
            (String::from("small"), Decoded::I8(-5)),
            (String::from("wide"), Decoded::U64(42)),
            (String::from("day"), Decoded::U32(12)),
            (String::from("at"), Decoded::U64(321)),
            (String::from("raw"), Decoded::Bytes(vec![1, 2, 3])),
            (String::from("gone"), Decoded::Unit),
        ])
    );
}

// No numeric widening: an int32 value does not satisfy an int64 request.
#[test]
fn test_decode_no_widening() {
    let row = Row {
        fields: vec![(String::from("n"), Field::Int(7))],
    };
    let shape = Shape::Record(vec![(String::from("n"), Shape::I64)]);
    let err = from_row(&row, &shape).unwrap_err();
    assert_eq!(err.message, "invalid type: int32, expected int64");
}

// A map value decodes against a map request: keys and values are decoded
// with the map's key and value shapes; repeated keys are kept as stored.
#[test]
fn test_decode_map_and_list() {
    let row = Row {
        fields: vec![
            (String::from("index"), Field::Int(2)),
            (
                String::from("sequence"),
                Field::ListInternal(vec![Field::Int(2), Field::Int(42)]),
            ),
            (
                String::from("map"),
                Field::MapInternal(vec![
                    (
                        Field::Str(String::from("x")),
                        Field::ListInternal(vec![Field::Int(2), Field::Int(42)]),
                    ),
                    (Field::Str(String::from("y")), Field::ListInternal(vec![])),
                ]),
            ),
        ],
    };
    let shape = Shape::Record(vec![
        (String::from("index"), Shape::I32),
        (String::from("sequence"), Shape::List(Box::new(Shape::I32))),
        (
            String::from("map"),
            Shape::Dict(Box::new(Shape::Str), Box::new(Shape::List(Box::new(Shape::I32)))),
        ),
    ]);
    let decoded = from_row(&row, &shape).unwrap();
    assert_eq!(
        decoded,
        Decoded::Record(vec![
            (String::from("index"), Decoded::I32(2)),
            (
                String::from("sequence"),
                Decoded::List(vec![Decoded::I32(2), Decoded::I32(42)])
            ),
            (
                String::from("map"),
                Decoded::Dict(vec![
                    (
                        Decoded::Str(String::from("x")),
                        Decoded::List(vec![Decoded::I32(2), Decoded::I32(42)])
                    ),
                    (Decoded::Str(String::from("y")), Decoded::List(vec![])),
                ])
            ),
        ])
    );
}

// A scalar presented where a container is requested fails, and so does a
// container presented where a scalar is requested.
#[test]
fn test_decode_container_mismatch() {
    let row = Row {
        fields: vec![(String::from("xs"), Field::UInt(1))],
    };
    let shape = Shape::Record(vec![(String::from("xs"), Shape::List(Box::new(Shape::U32)))]);
    let err = from_row(&row, &shape).unwrap_err();
    assert_eq!(err.message, "invalid type: uint32, expected list");

    let row2 = Row {
        fields: vec![(String::from("g"), Field::Group(Row { fields: vec![] }))],
    };
    let shape2 = Shape::Record(vec![(String::from("g"), Shape::Bool)]);
    let err2 = from_row(&row2, &shape2).unwrap_err();
    assert_eq!(err2.message, "invalid type: group, expected boolean");
}

// A map keeps repeated keys as stored: the decoder does not deduplicate.
#[test]
fn test_decode_map_repeated_keys() {
    let row = Row {
        fields: vec![(
            String::from("m"),
            Field::MapInternal(vec![
                (Field::Str(String::from("k")), Field::Int(1)),
                (Field::Str(String::from("k")), Field::Int(2)),
            ]),
        )],
    };
    let shape = Shape::Record(vec![(
        String::from("m"),
        Shape::Dict(Box::new(Shape::Str), Box::new(Shape::I32)),
    )]);
    let decoded = from_row(&row, &shape).unwrap();
    assert_eq!(
        decoded,
        Decoded::Record(vec![(
            String::from("m"),
            Decoded::Dict(vec![
                (Decoded::Str(String::from("k")), Decoded::I32(1)),
                (Decoded::Str(String::from("k")), Decoded::I32(2)),
            ])
        )])
    );
}

// Decoded rows accumulate into a DataFrame and flow through the transforms.
#[test]
fn test_decoded_rows_into_dataframe() {
    let shape = basic_shape();
    let rows = vec![basic_row("Daniel", 26), basic_row("Sergio", 30)];
    let mut decoded = Vec::new();
    for r in &rows {
        decoded.push(from_row(r, &shape).unwrap());
    }
    let df = combee::dataframe::DataFrame::new(decoded);
    assert_eq!(df.len(), 2);
    let found = df
        .find(|d| match d {
            Decoded::Record(ps) => ps[1].1 == Decoded::U32(30),
            _ => false,
        })
        .unwrap();
    match found {
        Decoded::Record(ps) => assert_eq!(ps[0].1, Decoded::Str(String::from("Sergio"))),
        _ => panic!("expected a record"),
    }
}
