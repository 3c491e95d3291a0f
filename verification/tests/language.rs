use pallas::ast::{Name as AstName, AST};
use pallas::grammar::{
    define, expr, identity, internal_name, internal_value, whitespace0, whitespace1, Definition,
    Expr, Identifier, InternalName, InternalValue,
};

#[test]
fn identifier_leading_underscore_then_alphanumerics() {
    let (rest, id) = identity("_ab1 rest").unwrap();
    assert_eq!(id, Identifier("_ab1".to_string()));
    assert_eq!(rest, " rest");
}

#[test]
fn identifier_must_not_start_with_a_digit() {
    assert!(identity("1ab").is_none());
    assert!(identity("").is_none());
    assert!(identity(" ab").is_none());
}

#[test]
fn identifier_single_letter() {
    let (rest, id) = identity("x").unwrap();
    assert_eq!(id.0, "x");
    assert_eq!(rest, "");
}

#[test]
fn whitespace_helpers() {
    assert_eq!(whitespace0("  a"), "a");
    assert_eq!(whitespace0("a"), "a");
    assert_eq!(whitespace1(" \t\na").unwrap(), "a");
    assert!(whitespace1("a").is_none());
}

#[test]
fn internal_name_needs_the_sigil_and_a_name() {
    let (rest, n) = internal_name("$abc rest").unwrap();
    assert_eq!(n, InternalName(Identifier("abc".to_string())));
    assert_eq!(rest, " rest");
    assert!(internal_name("abc").is_none());
    assert!(internal_name("$ abc").is_none());
    assert!(internal_name("$1").is_none());
}

#[test]
fn internal_value_keeps_raw_payload_verbatim() {
    let (rest, v) = internal_value("$name{some text}tail").unwrap();
    assert_eq!(v.name, InternalName(Identifier("name".to_string())));
    assert_eq!(v.value.0, "some text");
    assert!(v.value.1.is_none());
    assert_eq!(rest, "tail");
}

#[test]
fn internal_value_subexpr_equals_direct_parse_of_payload() {
    let (_, v) = internal_value("$y{z}").unwrap();
    assert_eq!(v.value.0, "z");
    let (leftover, direct) = expr("z").unwrap();
    assert_eq!(leftover, "");
    assert_eq!(*v.value.1.unwrap(), direct);
}

#[test]
fn internal_value_nested_subexpr() {
    let (rest, v) = internal_value("$a{$b{c}}").unwrap();
    assert_eq!(rest, "}");
    assert_eq!(v.value.0, "$b{c");
    assert!(v.value.1.is_none());
}

#[test]
fn internal_value_allows_whitespace_before_brace() {
    let (rest, v) = internal_value("$a  {b}").unwrap();
    assert_eq!(v.value.0, "b");
    assert_eq!(
        *v.value.1.unwrap(),
        Expr::Variable(Identifier("b".to_string()))
    );
    assert_eq!(rest, "");
}

#[test]
fn internal_value_incomplete_reparse_keeps_only_raw() {
    let (_, v) = internal_value("$a{b c}").unwrap();
    assert_eq!(v.value.0, "b c");
    assert!(v.value.1.is_none());
}

#[test]
fn internal_value_without_closing_brace_fails() {
    assert!(internal_value("$a{bc").is_none());
    assert!(internal_value("$a bc}").is_none());
}

#[test]
fn expr_prefers_internal_value_then_variable() {
    let (rest, e) = expr("$a{b} t").unwrap();
    assert!(matches!(e, Expr::InternalValue(_)));
    assert_eq!(rest, " t");
    let (rest, e) = expr("ab t").unwrap();
    assert_eq!(e, Expr::Variable(Identifier("ab".to_string())));
    assert_eq!(rest, " t");
    assert!(expr("{}").is_none());
}

#[test]
fn define_binds_a_variable() {
    let (rest, d) = define("define x y;").unwrap();
    assert_eq!(rest, "");
    assert_eq!(
        d,
        Definition {
            name: Identifier("x".to_string()),
            value: Expr::Variable(Identifier("y".to_string())),
        }
    );
}

#[test]
fn define_binds_an_internal_value() {
    let (rest, d) = define("define x $y{z};").unwrap();
    assert_eq!(rest, "");
    assert_eq!(
        d,
        Definition {
            name: Identifier("x".to_string()),
            value: Expr::InternalValue(InternalValue {
                name: InternalName(Identifier("y".to_string())),
                value: (
                    "z".to_string(),
                    Some(Box::new(Expr::Variable(Identifier("z".to_string())))),
                ),
            }),
        }
    );
}

#[test]
fn define_requires_whitespace_after_keyword() {
    assert!(define("definex y;").is_none());
}

#[test]
fn define_requires_the_semicolon() {
    assert!(define("define x y").is_none());
}

#[test]
fn define_does_not_take_an_equals_separator() {
    assert!(define("define x = y;").is_none());
}

#[test]
fn file_collects_definitions_in_source_order() {
    let (rest, f) = pallas::grammar::file("define x y;\n  define a $b{c};\n");
    assert_eq!(rest, "");
    assert_eq!(f.0.len(), 2);
    assert_eq!(f.0[0].name, Identifier("x".to_string()));
    assert_eq!(f.0[1].name, Identifier("a".to_string()));
}

#[test]
fn file_never_fails_and_leaves_the_unparsable_suffix() {
    let (rest, f) = pallas::grammar::file("define x y; 123");
    assert_eq!(rest, "123");
    assert_eq!(f.0.len(), 1);
    let (rest, f) = pallas::grammar::file("");
    assert_eq!(rest, "");
    assert!(f.0.is_empty());
}

#[test]
fn register_name_keeps_order_and_rejects_duplicates() {
    let mut ast = AST::new();
    let idx_a = ast
        .register_name(AstName {
            name: "a".to_string(),
        })
        .unwrap();
    let idx_b = ast
        .register_name(AstName {
            name: "b".to_string(),
        })
        .unwrap();
    assert_eq!(idx_a, 0);
    assert_eq!(idx_b, 1);
    assert!(ast
        .register_name(AstName {
            name: "a".to_string()
        })
        .is_err());
    assert_eq!(ast.names.len(), 2);
    assert_eq!(ast.names[0].name, "a");
    assert_eq!(ast.names[1].name, "b");
}

#[test]
fn internal_value_empty_payload() {
    let (rest, v) = internal_value("$a{}").unwrap();
    assert_eq!(rest, "");
    assert_eq!(v.value.0, "");
    assert!(v.value.1.is_none());
}

#[test]
fn identifier_takes_unicode_letters() {
    let (rest, id) = identity("λx tail").unwrap();
    assert_eq!(id.0, "λx");
    assert_eq!(rest, " tail");
}

#[test]
fn identifier_takes_one_leading_char_only() {
    let (rest, id) = identity("__x").unwrap();
    assert_eq!(id.0, "_");
    assert_eq!(rest, "_x");
}

#[test]
fn identifier_stops_at_an_interior_underscore() {
    let (rest, id) = identity("foo_bar").unwrap();
    assert_eq!(id.0, "foo");
    assert_eq!(rest, "_bar");
}
