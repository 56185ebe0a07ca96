use pascal_front::ast::{
    CaseVariant, Constant, ConstantDef, Number, RecordFieldList, RecordFixedPart, RecordSection,
    RecordVariantPart, SimpleType, Type, TypeDef, VariantSelector,
};
use pascal_front::parser::{self, ParseError};
use pascal_front::tokens::{LexingError, Token};

fn integer_constant(s: &str) -> Constant<'_> {
    Constant::Number(Number::Integer(s))
}

fn range<'a>(a: &'a str, b: &'a str) -> Type<'a> {
    Type::SubRange { start: integer_constant(a), end: integer_constant(b) }
}

fn number_source(n: &Number) -> String {
    match n {
        Number::Integer(x) | Number::Real(x) => x.to_string(),
    }
}

fn constant_source(c: &Constant) -> String {
    match c {
        Constant::Identifier { is_negative, ident } => {
            if *is_negative {
                format!("-{}", ident)
            } else {
                ident.to_string()
            }
        }
        Constant::Number(n) => number_source(n),
        Constant::String(s) => s.to_string(),
    }
}

fn type_source(t: &Type) -> String {
    match t {
        Type::Identifier(x) => x.to_string(),
        Type::Simple(SimpleType::Integer) => "integer".to_string(),
        Type::Simple(SimpleType::Real) => "real".to_string(),
        Type::Simple(SimpleType::Boolean) => "Boolean".to_string(),
        Type::Simple(SimpleType::Char) => "char".to_string(),
        Type::Enumerated(ids) => format!("({})", ids.join(",")),
        Type::SubRange { start, end } => {
            format!("{}..{}", constant_source(start), constant_source(end))
        }
        Type::Array { index, component, packed } => {
            let idx: Vec<String> = index.iter().map(type_source).collect();
            format!(
                "{}array[{}]of {}",
                if *packed { "packed " } else { "" },
                idx.join(","),
                type_source(component)
            )
        }
        Type::Record { .. } => panic!("records are not printed here"),
    }
}

#[test]
fn record_with_fixed_part() {
    let input = "record\n    year : 0..2000;\n    month : 1..12;\n    day : 1..31\nend";
    let expected = Type::Record {
        field_list: Some(RecordFieldList {
            fixed_part: Some(RecordFixedPart {
                records: vec![
                    RecordSection {
                        identifier_list: vec!["year"],
                        type_denoter: Box::new(range("0", "2000")),
                    },
                    RecordSection {
                        identifier_list: vec!["month"],
                        type_denoter: Box::new(range("1", "12")),
                    },
                    RecordSection {
                        identifier_list: vec!["day"],
                        type_denoter: Box::new(range("1", "31")),
                    },
                ],
            }),
            variant_part: None,
        }),
        packed: false,
    };
    assert_eq!(parser::parse_type(input).unwrap(), expected);
}

#[test]
fn empty_packed_record() {
    assert_eq!(
        parser::parse_type("packed record end").unwrap(),
        Type::Record { field_list: None, packed: true }
    );
}

#[test]
fn variant_record_with_and_without_tag() {
    let input = "record x, y : real; case kind : Boolean of true : (a : char); false, maybe : () end";
    let expected = Type::Record {
        field_list: Some(RecordFieldList {
            fixed_part: Some(RecordFixedPart {
                records: vec![RecordSection {
                    identifier_list: vec!["x", "y"],
                    type_denoter: Box::new(Type::Simple(SimpleType::Real)),
                }],
            }),
            variant_part: Some(RecordVariantPart {
                variant_selector: VariantSelector {
                    tag_field: Some("kind"),
                    tag_type: Box::new(Type::Simple(SimpleType::Boolean)),
                },
                variants: vec![
                    CaseVariant {
                        case_constants: vec![Constant::Identifier {
                            is_negative: false,
                            ident: "true",
                        }],
                        field_list: Some(RecordFieldList {
                            fixed_part: Some(RecordFixedPart {
                                records: vec![RecordSection {
                                    identifier_list: vec!["a"],
                                    type_denoter: Box::new(Type::Simple(SimpleType::Char)),
                                }],
                            }),
                            variant_part: None,
                        }),
                    },
                    CaseVariant {
                        case_constants: vec![
                            Constant::Identifier { is_negative: false, ident: "false" },
                            Constant::Identifier { is_negative: false, ident: "maybe" },
                        ],
                        field_list: None,
                    },
                ],
            }),
        }),
        packed: false,
    };
    assert_eq!(parser::parse_type(input).unwrap(), expected);

    let untagged = parser::parse_type("record case 1..3 of 1 : () end").unwrap();
    assert_eq!(
        untagged,
        Type::Record {
            field_list: Some(RecordFieldList {
                fixed_part: None,
                variant_part: Some(RecordVariantPart {
                    variant_selector: VariantSelector {
                        tag_field: None,
                        tag_type: Box::new(range("1", "3")),
                    },
                    variants: vec![CaseVariant { case_constants: vec![integer_constant("1")], field_list: None }],
                }),
            }),
            packed: false,
        }
    );
}

#[test]
fn identifier_and_negated_subrange_bounds() {
    assert_eq!(
        parser::parse_type("-max..max").unwrap(),
        Type::SubRange {
            start: Constant::Identifier { is_negative: true, ident: "max" },
            end: Constant::Identifier { is_negative: false, ident: "max" },
        }
    );
    assert_eq!(
        parser::parse_type("(red, green)").unwrap(),
        Type::Enumerated(vec!["red", "green"])
    );
}

#[test]
fn trailing_comma_is_a_syntax_error() {
    assert_eq!(
        parser::parse_enumerated_type("(hello,world,)"),
        Err(ParseError::UnexpectedToken { found: Token::SpecialCloseParen, position: 5 })
    );
}

#[test]
fn trailing_input_is_refused() {
    assert_eq!(
        parser::parse_number("2 3"),
        Err(ParseError::UnexpectedToken { found: Token::Integer("3"), position: 1 })
    );
}

#[test]
fn input_that_ends_early() {
    assert_eq!(parser::parse_type("array [1..2"), Err(ParseError::UnexpectedEndOfInput));
    assert_eq!(parser::parse_constant(""), Err(ParseError::UnexpectedEndOfInput));
}

#[test]
fn lexical_errors_carry_their_position() {
    assert_eq!(
        parser::parse_constant("x #"),
        Err(ParseError::Lexical { error: LexingError::Other, position: 2 })
    );
}

#[test]
fn simple_type_names_are_case_sensitive() {
    assert_eq!(parser::parse_type("Integer").unwrap(), Type::Identifier("Integer"));
    assert!(parser::parse_simple_type("boolean").is_err());
    assert!(parser::parse_simple_type("").is_err());
    assert!(parser::parse_simple_type("real real").is_err());
}

#[test]
fn numbers_partition_into_integers_and_reals() {
    for s in ["0", "+7", "-12345"] {
        assert_eq!(parser::parse_number(s).unwrap(), Number::Integer(s));
    }
    for s in ["0.5", "1e3", "1E+3", "-2.5e-7"] {
        assert_eq!(parser::parse_number(s).unwrap(), Number::Real(s));
    }
    assert!(parser::parse_number("1.").is_err());
    assert!(parser::parse_number("abc").is_err());
}

#[test]
fn constant_definition_with_string() {
    assert_eq!(
        parser::parse_constant_def("greeting = \"hi\"").unwrap(),
        ConstantDef { ident: "greeting", value: Constant::String("\"hi\"") }
    );
}

#[test]
fn printed_numbers_and_constants_parse_back() {
    for s in ["-87.35E+8", "42", "-MAX", "\"a\\\"b\""] {
        let c = parser::parse_constant(s).unwrap();
        let printed = constant_source(&c);
        assert_eq!(parser::parse_constant(&printed).unwrap(), c);
    }
    let n = parser::parse_number("  1e10 ").unwrap();
    let printed = number_source(&n);
    assert_eq!(printed, "1e10");
    assert_eq!(parser::parse_number(&printed).unwrap(), n);
}

#[test]
fn printed_type_definitions_parse_back() {
    let sources = [
        "t = packed array [Boolean] of packed array [0..10] of real",
        "t = array [1..100, Boolean, (a, b)] of -x..y",
        "t = myident2",
    ];
    for s in sources {
        let d = parser::parse_type_def(s).unwrap();
        let printed = format!("{} = {}", d.ident, type_source(&d.value));
        let again = parser::parse_type_def(&printed).unwrap();
        assert_eq!(again, d);
        assert_eq!(
            TypeDef { ident: again.ident, value: again.value },
            parser::parse_type_def(s).unwrap()
        );
    }
}

#[test]
fn syntax_errors_name_the_offending_token() {
    assert_eq!(
        parser::parse_number("1."),
        Err(ParseError::UnexpectedToken { found: Token::SpecialDot, position: 1 })
    );
    assert_eq!(
        parser::parse_number("- 2"),
        Err(ParseError::UnexpectedToken { found: Token::SpecialMinus, position: 0 })
    );
    assert_eq!(
        parser::parse_constant("of"),
        Err(ParseError::UnexpectedToken { found: Token::WordOf, position: 0 })
    );
    assert_eq!(
        parser::parse_constant_def("X := 2"),
        Err(ParseError::UnexpectedToken { found: Token::SpecialAssign, position: 1 })
    );
    assert_eq!(
        parser::parse_type("array [] of real"),
        Err(ParseError::UnexpectedToken { found: Token::SpecialCloseBracket, position: 2 })
    );
    assert_eq!(parser::parse_type_def("mytype ="), Err(ParseError::UnexpectedEndOfInput));
    assert_eq!(parser::parse_type(""), Err(ParseError::UnexpectedEndOfInput));
}

#[test]
fn syntax_error_before_a_later_lexical_error() {
    assert_eq!(
        parser::parse_constant("2 3 #"),
        Err(ParseError::UnexpectedToken { found: Token::Integer("3"), position: 1 })
    );
    assert_eq!(
        parser::parse_constant("2 #"),
        Err(ParseError::Lexical { error: LexingError::Other, position: 2 })
    );
    assert_eq!(
        parser::parse_enumerated_type("(a, # b)"),
        Err(ParseError::Lexical { error: LexingError::Other, position: 4 })
    );
    assert_eq!(
        parser::parse_enumerated_type("(a b #)"),
        Err(ParseError::UnexpectedToken { found: Token::Identifier("b"), position: 2 })
    );
}

#[test]
fn integer_conversion_failure_is_a_number_error() {
    let err = "x".parse::<i64>().unwrap_err();
    assert_eq!(LexingError::from(err), LexingError::NumberParseError);
}
