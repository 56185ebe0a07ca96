use pascal_front::ast;
use pascal_front::parser;

fn check_number(input: &str, value: ast::Number) {
    assert_eq!(parser::parse_number(input).unwrap(), value)
}

fn check_constant(input: &str, value: ast::Constant) {
    assert_eq!(parser::parse_constant(input).unwrap(), value)
}

fn check_constant_def(input: &str, value: ast::ConstantDef) {
    assert_eq!(parser::parse_constant_def(input).unwrap(), value)
}

fn check_simple_type(input: &str, value: ast::SimpleType) {
    assert_eq!(parser::parse_simple_type(input).unwrap(), value)
}

fn check_enumerated_type(input: &str, value: Vec<&str>) {
    assert_eq!(parser::parse_enumerated_type(input).unwrap(), value)
}

fn check_type(input: &str, value: ast::Type) {
    assert_eq!(parser::parse_type(input).unwrap(), value)
}

fn check_type_def(input: &str, value: ast::TypeDef) {
    assert_eq!(parser::parse_type_def(input).unwrap(), value)
}

#[test]
fn parse_number() {
    check_number("2", ast::Number::Integer("2"));
    check_number("+100", ast::Number::Integer("+100"));
    check_number("-100", ast::Number::Integer("-100"));
    check_number("-0.1", ast::Number::Real("-0.1"));
    check_number("2.2", ast::Number::Real("2.2"));
    check_number("1e10", ast::Number::Real("1e10"));
    check_number("-1e10", ast::Number::Real("-1e10"));
    check_number("87.35E+8", ast::Number::Real("87.35E+8"));
    check_number("-87.35E+8", ast::Number::Real("-87.35E+8"));
}

#[test]
fn parse_constant() {
    check_constant(
        "MYIDENTIFIER",
        ast::Constant::Identifier {
            is_negative: false,
            ident: "MYIDENTIFIER",
        },
    );
    check_constant(
        "-MYIDENTIFIER",
        ast::Constant::Identifier {
            is_negative: true,
            ident: "MYIDENTIFIER",
        },
    );

    check_constant("2", ast::Constant::Number(ast::Number::Integer("2")));
    check_constant("+100", ast::Constant::Number(ast::Number::Integer("+100")));
    check_constant("-100", ast::Constant::Number(ast::Number::Integer("-100")));

    check_constant("-0.1", ast::Constant::Number(ast::Number::Real("-0.1")));
    check_constant("2.2", ast::Constant::Number(ast::Number::Real("2.2")));
    check_constant("1e10", ast::Constant::Number(ast::Number::Real("1e10")));

    check_constant(r#""hello world""#, ast::Constant::String("\"hello world\""));
    check_constant(
        r#""\"hell\"o world""#,
        ast::Constant::String("\"\\\"hell\\\"o world\""),
    );
}

#[test]
fn parse_constant_definition() {
    check_constant_def(
        "MYIDENTIFIER = 2.2",
        ast::ConstantDef {
            ident: "MYIDENTIFIER",
            value: ast::Constant::Number(ast::Number::Real("2.2")),
        },
    );
}

#[test]
fn parse_simple_type() {
    check_simple_type("Boolean", ast::SimpleType::Boolean);
    check_simple_type("char", ast::SimpleType::Char);
    check_simple_type("integer", ast::SimpleType::Integer);
    check_simple_type("real", ast::SimpleType::Real);
}

#[test]
fn parse_enumerated_type() {
    check_enumerated_type("(hello, world)", vec!["hello", "world"]);
    check_enumerated_type("(hello,world)", vec!["hello", "world"]);
    check_enumerated_type("(hello)", vec!["hello"]);
}

#[test]
#[should_panic]
fn parse_enumerated_type_panic() {
    check_enumerated_type("(hello,world,)", vec!["hello", "world"]);
}

#[test]
fn parse_type() {
    check_type("Boolean", ast::Type::Simple(ast::SimpleType::Boolean));
    check_type("mytype", ast::Type::Identifier("mytype"));
    check_type(
        "1..100",
        ast::Type::SubRange {
            start: ast::Constant::Number(ast::Number::Integer("1")),
            end: ast::Constant::Number(ast::Number::Integer("100")),
        },
    );
    check_type(
        "array [1..100] of real",
        ast::Type::Array {
            index: vec![ast::Type::SubRange {
                start: ast::Constant::Number(ast::Number::Integer("1")),
                end: ast::Constant::Number(ast::Number::Integer("100")),
            }],
            component: Box::new(ast::Type::Simple(ast::SimpleType::Real)),
            packed: false,
        },
    );
    check_type(
        "array [1..100, Boolean] of real",
        ast::Type::Array {
            index: vec![
                ast::Type::SubRange {
                    start: ast::Constant::Number(ast::Number::Integer("1")),
                    end: ast::Constant::Number(ast::Number::Integer("100")),
                },
                ast::Type::Simple(ast::SimpleType::Boolean),
            ],
            component: Box::new(ast::Type::Simple(ast::SimpleType::Real)),
            packed: false,
        },
    );

    check_type(
        "packed array [Boolean] of packed array [0..10] of real",
        ast::Type::Array {
            index: vec![ast::Type::Simple(ast::SimpleType::Boolean)],
            component: Box::new(ast::Type::Array {
                index: vec![ast::Type::SubRange {
                    start: ast::Constant::Number(ast::Number::Integer("0")),
                    end: ast::Constant::Number(ast::Number::Integer("10")),
                }],
                component: Box::new(ast::Type::Simple(ast::SimpleType::Real)),
                packed: true,
            }),
            packed: true,
        },
    );
}

#[test]
fn parse_type_def() {
    check_type_def(
        "mytype = Boolean",
        ast::TypeDef {
            ident: "mytype",
            value: ast::Type::Simple(ast::SimpleType::Boolean),
        },
    );

    check_type_def(
        "mytype = myident2",
        ast::TypeDef {
            ident: "mytype",
            value: ast::Type::Identifier("myident2"),
        },
    );
}
