use browser_parser::css::{
    attribute_selector, class_selector, declaration, declarations, id_selector, selectors,
    rule, simple_selector, stylesheet, type_selector, universal_selector, whitespaces, Rule,
    Stylesheet, AttributeSelectorOp, CSSValue,
    Declaration, SimpleSelector,
};
use browser_parser::source::{ErrorKind, Expected, ParseError};

fn keyword(name: &str, value: &str) -> Declaration {
    Declaration { name: name.to_string(), value: CSSValue::Keyword(value.to_string()) }
}

fn attr_selector(tag: &str, op: AttributeSelectorOp, attr: &str, value: &str) -> SimpleSelector {
    SimpleSelector::AttributeSelector {
        tag_name: tag.to_string(),
        attribute: attr.to_string(),
        op,
        value: value.to_string(),
    }
}

#[test]
fn test_declarations() {
    assert_eq!(
        declarations("foo: bar; piyo: piyopiyo;"),
        Ok((
            vec![
                Declaration {
                    name: "foo".to_string(),
                    value: CSSValue::Keyword("bar".to_string())
                },
                Declaration {
                    name: "piyo".to_string(),
                    value: CSSValue::Keyword("piyopiyo".to_string())
                }
            ],
            ""
        ))
    )
}

#[test]
fn test_selectors() {
    assert_eq!(
        selectors("test[foo=bar], a"),
        Ok((
            vec![
                SimpleSelector::AttributeSelector {
                    tag_name: "test".to_string(),
                    attribute: "foo".to_string(),
                    op: AttributeSelectorOp::Eq,
                    value: "bar".to_string()
                },
                SimpleSelector::TypeSelector {
                    tag_name: "a".to_string(),
                }
            ],
            ""
        ))
    )
}

#[test]
fn test_simple_selector() {
    assert_eq!(simple_selector("*"), Ok((SimpleSelector::UniversalSelector, "")));

    assert_eq!(
        simple_selector("test"),
        Ok((
            SimpleSelector::TypeSelector {
                tag_name: "test".to_string()
            },
            ""
        ))
    );

    assert_eq!(
        simple_selector("test[foo=bar]"),
        Ok((
            SimpleSelector::AttributeSelector {
                tag_name: "test".to_string(),
                attribute: "foo".to_string(),
                op: AttributeSelectorOp::Eq,
                value: "bar".to_string()
            },
            ""
        ))
    );

    assert_eq!(
        simple_selector(".test"),
        Ok((
            SimpleSelector::ClassSelector {
                class_name: "test".to_string()
            },
            ""
        ))
    );

    assert_eq!(
        simple_selector("#test"),
        Ok((
            SimpleSelector::IdSelector {
                id_name: "test".to_string()
            },
            ""
        ))
    );
}

#[test]
fn declaration_with_spaces_around_colon() {
    assert_eq!(declaration("color :  red;"), Ok((keyword("color", "red"), ";")));
}

#[test]
fn declaration_without_value_fails() {
    assert_eq!(
        declaration("color: ;"),
        Err(ParseError { position: 7, kind: ErrorKind::Syntax(Expected::Letter) })
    );
}

#[test]
fn declarations_keep_source_order_and_rest() {
    assert_eq!(
        declarations("a: b;c:d ;  e : f } x"),
        Ok((vec![keyword("a", "b"), keyword("c", "d"), keyword("e", "f")], "} x"))
    );
}

#[test]
fn declarations_of_empty_text() {
    assert_eq!(declarations(""), Ok((vec![], "")));
}

#[test]
fn declarations_without_final_separator() {
    assert_eq!(declarations("a: b"), Ok((vec![keyword("a", "b")], "")));
}

#[test]
fn declarations_fail_inside_a_declaration() {
    assert_eq!(
        declarations("a: b; c d;"),
        Err(ParseError { position: 8, kind: ErrorKind::Syntax(Expected::Char(':')) })
    );
}

#[test]
fn attribute_selector_contain() {
    assert_eq!(
        simple_selector("test[foo~=bar]"),
        Ok((attr_selector("test", AttributeSelectorOp::Contain, "foo", "bar"), ""))
    );
}

#[test]
fn attribute_selector_unsupported_operator_fails() {
    assert_eq!(
        simple_selector("test[foo^=bar]"),
        Err(ParseError { position: 8, kind: ErrorKind::InvalidAttributeSelectorOp })
    );
    assert_eq!(
        attribute_selector("test[foo|=bar]"),
        Err(ParseError { position: 8, kind: ErrorKind::InvalidAttributeSelectorOp })
    );
}

#[test]
fn attribute_selector_without_bracket_gives_input_back() {
    assert_eq!(
        attribute_selector("test"),
        Err(ParseError { position: 0, kind: ErrorKind::Syntax(Expected::Char('[')) })
    );
    assert_eq!(
        simple_selector("test[foo]"),
        Ok((SimpleSelector::TypeSelector { tag_name: "test".to_string() }, "[foo]"))
    );
}

#[test]
fn single_selector_kinds() {
    assert_eq!(universal_selector("*a"), Ok((SimpleSelector::UniversalSelector, "a")));
    assert_eq!(
        id_selector("#main p"),
        Ok((SimpleSelector::IdSelector { id_name: "main".to_string() }, " p"))
    );
    assert_eq!(
        class_selector(".x.y"),
        Ok((SimpleSelector::ClassSelector { class_name: "x".to_string() }, ".y"))
    );
    assert_eq!(
        type_selector("h{"),
        Ok((SimpleSelector::TypeSelector { tag_name: "h".to_string() }, "{"))
    );
    assert_eq!(id_selector("#"), Err(ParseError { position: 1, kind: ErrorKind::Syntax(Expected::Letter) }));
}

#[test]
fn id_selector_without_name_is_not_retried() {
    assert_eq!(
        simple_selector("#1"),
        Err(ParseError { position: 1, kind: ErrorKind::Syntax(Expected::Letter) })
    );
}

#[test]
fn selectors_stop_before_a_brace() {
    assert_eq!(
        selectors("*, .a ,#b {"),
        Ok((
            vec![
                SimpleSelector::UniversalSelector,
                SimpleSelector::ClassSelector { class_name: "a".to_string() },
                SimpleSelector::IdSelector { id_name: "b".to_string() },
            ],
            " {"
        ))
    );
}

#[test]
fn selectors_need_one_selector() {
    assert_eq!(selectors("{"), Err(ParseError { position: 0, kind: ErrorKind::Syntax(Expected::Letter) }));
    assert_eq!(selectors("a, {"), Err(ParseError { position: 3, kind: ErrorKind::Syntax(Expected::Letter) }));
}

#[test]
fn declarations_written_one_after_another_parse_back() {
    let decls = vec![("margin", "auto"), ("color", "red"), ("display", "block")];
    let written: Vec<String> = decls.iter().map(|(n, v)| format!("{}: {};", n, v)).collect();
    let text = written.join(" ");
    let (parsed, rest) = declarations(&text).unwrap();
    assert_eq!(rest, "");
    assert_eq!(parsed.len(), 3);
    let expected: Vec<Declaration> = decls.iter().map(|(n, v)| keyword(n, v)).collect();
    assert_eq!(parsed, expected);
}

#[test]
fn whitespace_run() {
    assert_eq!(whitespaces(" \n  \nx "), (" \n  \n".to_string(), "x "));
    assert_eq!(whitespaces("x"), ("".to_string(), "x"));
    assert_eq!(whitespaces("\tx"), ("".to_string(), "\tx"));
    assert_eq!(whitespaces("\r\n"), ("".to_string(), "\r\n"));
}

#[test]
fn rule_with_selectors_and_declarations() {
    assert_eq!(
        rule("h, .note {\n  color: red;\n  margin: auto\n} p"),
        Ok((
            Rule {
                selectors: vec![
                    SimpleSelector::TypeSelector { tag_name: "h".to_string() },
                    SimpleSelector::ClassSelector { class_name: "note".to_string() },
                ],
                declarations: vec![keyword("color", "red"), keyword("margin", "auto")],
            },
            " p"
        ))
    );
}

#[test]
fn tab_is_not_whitespace() {
    assert_eq!(
        declaration("color:\tred"),
        Err(ParseError { position: 6, kind: ErrorKind::Syntax(Expected::Letter) })
    );
}

#[test]
fn rule_errors() {
    assert_eq!(rule("a color: red }"), Err(ParseError { position: 2, kind: ErrorKind::Syntax(Expected::Char('{')) }));
    assert_eq!(rule("a { color: red"), Err(ParseError { position: 14, kind: ErrorKind::Syntax(Expected::Char('}')) }));
}

#[test]
fn stylesheet_of_rules() {
    let (sheet, rest) = stylesheet("  * { a: b; }\n#x{c:d}  ").unwrap();
    assert_eq!(rest, "");
    assert_eq!(
        sheet,
        Stylesheet {
            rules: vec![
                Rule {
                    selectors: vec![SimpleSelector::UniversalSelector],
                    declarations: vec![keyword("a", "b")],
                },
                Rule {
                    selectors: vec![SimpleSelector::IdSelector { id_name: "x".to_string() }],
                    declarations: vec![keyword("c", "d")],
                },
            ]
        }
    );
    assert_eq!(stylesheet(""), Ok((Stylesheet { rules: vec![] }, "")));
    assert_eq!(
        stylesheet("a { b: c } d {"),
        Err(ParseError { position: 14, kind: ErrorKind::Syntax(Expected::Char('}')) })
    );
}

#[test]
fn declarations_with_runs_and_rest() {
    assert_eq!(
        declarations("a\n:  b ;\n\nc:d  ; e :f\n}x"),
        Ok((vec![keyword("a", "b"), keyword("c", "d"), keyword("e", "f")], "}x"))
    );
    assert_eq!(
        declarations("a: b;  \n"),
        Ok((vec![keyword("a", "b")], ""))
    );
}
