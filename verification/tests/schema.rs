use transmittable::parse::{
    increment_expr, parse_fields, parse_repr, Attribute, Data, Declaration, DeclaredData,
    DeclaredFields, DeclaredVariant, Discriminant, Fields, Literal, Repr, SchemaError,
    TransmittableInput, Variant,
};

fn literal(value: i64) -> Literal {
    Literal { negative: value < 0, magnitude: value.unsigned_abs() as u128 }
}

fn unit_variant(name: &str, discriminant: Option<i64>) -> DeclaredVariant {
    DeclaredVariant {
        ident: name.to_string(),
        fields: DeclaredFields::Unit,
        discriminant: discriminant.map(literal),
    }
}

fn repr_attribute(arguments: &[&str]) -> Attribute {
    Attribute {
        path: "repr".to_string(),
        arguments: arguments.iter().map(|name| name.to_string()).collect(),
    }
}

fn declared_enum(attrs: Vec<Attribute>, variants: Vec<DeclaredVariant>) -> Declaration {
    Declaration { ident: "Subject".to_string(), attrs, data: DeclaredData::Enum(variants) }
}

fn declared_struct(fields: DeclaredFields) -> Declaration {
    Declaration { ident: "Subject".to_string(), attrs: Vec::new(), data: DeclaredData::Struct(fields) }
}

fn discriminants(input: &TransmittableInput) -> Vec<Option<Literal>> {
    match &input.data {
        Data::Enum(variants) => variants.iter().map(|v| v.discriminant.normalized()).collect(),
        _ => panic!("not a tagged union"),
    }
}

#[test]
fn discriminants_auto_increment() {
    let declaration = declared_enum(
        vec![repr_attribute(&["u8"])],
        vec![unit_variant("A", None), unit_variant("B", Some(6)), unit_variant("C", None)],
    );
    let input = TransmittableInput::parse(&declaration).unwrap();
    assert_eq!(discriminants(&input), vec![Some(literal(0)), Some(literal(6)), Some(literal(7))]);
    assert_eq!(input.repr, Some(Repr::U8));
    assert_eq!(input.ident, "Subject");
}

#[test]
fn discriminants_count_up_from_the_last_explicit_one() {
    let declaration = declared_enum(
        Vec::new(),
        vec![
            unit_variant("A", Some(-2)),
            unit_variant("B", None),
            unit_variant("C", None),
            unit_variant("D", None),
            unit_variant("E", Some(100)),
            unit_variant("F", None),
            unit_variant("G", Some(3)),
            unit_variant("H", None),
        ],
    );
    let input = TransmittableInput::parse(&declaration).unwrap();
    let expected: Vec<Option<Literal>> =
        [-2i64, -1, 0, 1, 100, 101, 3, 4].iter().map(|v| Some(literal(*v))).collect();
    assert_eq!(discriminants(&input), expected);
}

#[test]
fn variants_keep_their_declared_order_and_fields() {
    let declaration = declared_enum(
        vec![repr_attribute(&["i16"])],
        vec![
            DeclaredVariant {
                ident: "Point".to_string(),
                fields: DeclaredFields::Named(vec![Some("x".to_string()), Some("y".to_string())]),
                discriminant: None,
            },
            DeclaredVariant {
                ident: "Pair".to_string(),
                fields: DeclaredFields::Unnamed(2),
                discriminant: Some(literal(9)),
            },
            unit_variant("Nothing", None),
        ],
    );
    let input = TransmittableInput::parse(&declaration).unwrap();
    let expected = vec![
        Variant {
            ident: "Point".to_string(),
            fields: Fields::Named(vec!["x".to_string(), "y".to_string()]),
            discriminant: Discriminant { literal: literal(0), increments: 0 },
        },
        Variant {
            ident: "Pair".to_string(),
            fields: Fields::Unnamed(2),
            discriminant: Discriminant { literal: literal(9), increments: 0 },
        },
        Variant {
            ident: "Nothing".to_string(),
            fields: Fields::Empty,
            discriminant: Discriminant { literal: literal(9), increments: 1 },
        },
    ];
    assert_eq!(input.data, Data::Enum(expected));
}

#[test]
fn schema_construction_is_idempotent() {
    let declaration = declared_enum(
        vec![repr_attribute(&["C", "u32"])],
        vec![
            unit_variant("A", None),
            DeclaredVariant {
                ident: "B".to_string(),
                fields: DeclaredFields::Named(vec![Some("z".to_string()), Some("a".to_string())]),
                discriminant: Some(literal(6)),
            },
            unit_variant("C", None),
        ],
    );
    let first = TransmittableInput::parse(&declaration);
    let second = TransmittableInput::parse(&declaration.clone());
    assert_eq!(first, second);
    assert!(first.is_ok());
}

#[test]
fn a_struct_keeps_its_fields() {
    let named = declared_struct(DeclaredFields::Named(vec![
        Some("first".to_string()),
        Some("second".to_string()),
    ]));
    let input = TransmittableInput::parse(&named).unwrap();
    assert_eq!(input.data, Data::Struct(Fields::Named(vec!["first".to_string(), "second".to_string()])));
    assert_eq!(input.repr, None);
    let positional = TransmittableInput::parse(&declared_struct(DeclaredFields::Unnamed(3))).unwrap();
    assert_eq!(positional.data, Data::Struct(Fields::Unnamed(3)));
    let unit = TransmittableInput::parse(&declared_struct(DeclaredFields::Unit)).unwrap();
    assert_eq!(unit.data, Data::Struct(Fields::Empty));
}

#[test]
fn a_struct_ignores_a_repr() {
    let mut declaration = declared_struct(DeclaredFields::Unnamed(1));
    declaration.attrs = vec![repr_attribute(&["u8"])];
    assert_eq!(TransmittableInput::parse(&declaration).unwrap().repr, None);
}

#[test]
fn a_union_has_an_unknown_body() {
    let declaration = Declaration {
        ident: "Subject".to_string(),
        attrs: Vec::new(),
        data: DeclaredData::Union,
    };
    assert_eq!(TransmittableInput::parse(&declaration).unwrap().data, Data::Unknown);
}

#[test]
fn a_named_field_without_a_name_is_refused() {
    let fields = DeclaredFields::Named(vec![Some("a".to_string()), None]);
    assert_eq!(parse_fields(&fields), Err(SchemaError::MissingFieldName));
    assert_eq!(
        TransmittableInput::parse(&declared_struct(fields.clone())),
        Err(SchemaError::MissingFieldName)
    );
    let declaration = declared_enum(
        Vec::new(),
        vec![
            unit_variant("A", None),
            DeclaredVariant { ident: "B".to_string(), fields, discriminant: None },
        ],
    );
    assert_eq!(TransmittableInput::parse(&declaration), Err(SchemaError::MissingFieldName));
}

#[test]
fn fields_are_parsed_by_kind() {
    assert_eq!(parse_fields(&DeclaredFields::Unit), Ok(Fields::Empty));
    assert_eq!(parse_fields(&DeclaredFields::Unnamed(0)), Ok(Fields::Unnamed(0)));
    assert_eq!(parse_fields(&DeclaredFields::Unnamed(7)), Ok(Fields::Unnamed(7)));
    assert_eq!(parse_fields(&DeclaredFields::Named(Vec::new())), Ok(Fields::Named(Vec::new())));
    assert_eq!(Fields::Unnamed(7).arity(), 7);
    assert_eq!(Fields::Named(vec!["a".to_string()]).arity(), 1);
    assert_eq!(Fields::Empty.arity(), 0);
}

#[test]
fn positional_fields_are_counted_in_32_bits() {
    if std::mem::size_of::<usize>() == 8 {
        let count = (1u64 << 32) as usize + 5;
        assert_eq!(parse_fields(&DeclaredFields::Unnamed(count)), Ok(Fields::Unnamed(5)));
    }
}

#[test]
fn every_integer_type_is_known_by_name() {
    let names = [
        ("u8", Repr::U8),
        ("u16", Repr::U16),
        ("u32", Repr::U32),
        ("u64", Repr::U64),
        ("u128", Repr::U128),
        ("usize", Repr::Usize),
        ("i8", Repr::I8),
        ("i16", Repr::I16),
        ("i32", Repr::I32),
        ("i64", Repr::I64),
        ("i128", Repr::I128),
        ("isize", Repr::Isize),
    ];
    for (name, repr) in names {
        assert_eq!(Repr::from_name(&name.to_string()), Some(repr));
        let declaration = declared_enum(vec![repr_attribute(&[name])], Vec::new());
        assert_eq!(parse_repr(&declaration), Some(repr));
    }
    for name in ["", "C", "u", "u7", "U8", "u8 ", "packed", "transparent", "i256", "bool"] {
        assert_eq!(Repr::from_name(&name.to_string()), None);
    }
}

#[test]
fn the_first_repr_that_names_an_integer_decides() {
    let other = Attribute { path: "derive".to_string(), arguments: vec!["u8".to_string()] };
    let declaration = declared_enum(
        vec![
            other,
            repr_attribute(&["C"]),
            repr_attribute(&["C", "u16", "packed"]),
            repr_attribute(&["u64"]),
        ],
        Vec::new(),
    );
    assert_eq!(parse_repr(&declaration), Some(Repr::U16));
}

#[test]
fn the_last_integer_named_in_a_repr_wins() {
    let declaration = declared_enum(vec![repr_attribute(&["u8", "C", "i32"])], Vec::new());
    assert_eq!(parse_repr(&declaration), Some(Repr::I32));
}

#[test]
fn no_repr_names_no_integer() {
    assert_eq!(parse_repr(&declared_enum(Vec::new(), Vec::new())), None);
    assert_eq!(parse_repr(&declared_enum(vec![repr_attribute(&["C"])], Vec::new())), None);
    let other = Attribute { path: "derive".to_string(), arguments: vec!["u8".to_string()] };
    assert_eq!(parse_repr(&declared_enum(vec![other], Vec::new())), None);
}

#[test]
fn a_discriminant_is_a_literal_and_its_increments() {
    let start = Discriminant::explicit(literal(6));
    assert_eq!(start, Discriminant { literal: literal(6), increments: 0 });
    let next = increment_expr(start);
    assert_eq!(next, Discriminant { literal: literal(6), increments: 1 });
    assert_eq!(next.normalized(), Some(literal(7)));
    let below = Discriminant { literal: literal(-3), increments: 2 };
    assert_eq!(below.normalized(), Some(literal(-1)));
    let crossing = Discriminant { literal: literal(-3), increments: 3 };
    assert_eq!(crossing.normalized(), Some(literal(0)));
    let above = Discriminant { literal: literal(-3), increments: 10 };
    assert_eq!(above.normalized(), Some(literal(7)));
    let largest = Discriminant {
        literal: Literal { negative: false, magnitude: u128::MAX },
        increments: 0,
    };
    assert_eq!(largest.normalized(), Some(Literal { negative: false, magnitude: u128::MAX }));
    assert_eq!(increment_expr(largest).normalized(), None);
}
