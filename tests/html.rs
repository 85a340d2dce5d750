use browser_parser::dom::{AttrMap, Element, Node, NodeType, Text};
use browser_parser::html_parser::{
    attribute, attributes, close_tag, contents, element, open_tag, text, MAX_NESTING,
};
use browser_parser::source::{ErrorKind, Expected, ParseError};

#[test]
fn test_parse_attriute() {
    assert_eq!(
        attribute("test=\"foobar\""),
        Ok((("test".to_string(), "foobar".to_string()), ""))
    )
}

#[test]
fn test_parse_attributes() {
    let mut expected_map = AttrMap::new();
    expected_map.insert("test".to_string(), "foobar".to_string());
    expected_map.insert("abc".to_string(), "def".to_string());
    assert_eq!(
        attributes("test=\"foobar\" abc=\"def\""),
        Ok((expected_map, ""))
    );

    assert_eq!(attributes(""), Ok((AttrMap::new(), "")))
}

#[test]
fn test_parse_open_tag() {
    {
        assert_eq!(
            open_tag("<p>aaa"),
            Ok((("p".to_string(), AttrMap::new()), "aaa"))
        )
    }
    {
        let mut attributes = AttrMap::new();
        attributes.insert("id".to_string(), "test".to_string());
        assert_eq!(
            open_tag("<p id=\"test\">"),
            Ok((("p".to_string(), attributes), ""))
        )
    }
    {
        assert!(open_tag("<p id>").is_err());
    }
}

#[test]
fn test_parse_close_tag() {
    let result = close_tag("</p>");
    assert_eq!(result, Ok(("p".to_string(), "")))
}

#[test]
fn test_parse_element() {
    println!(
        "{:?}",
        element("<div><p>hello world</p><span class=\"red\">hoge</span></div>")
    );

    assert_eq!(
        element("<p></p>"),
        Ok((Element::new("p".to_string(), AttrMap::new(), vec![]), ""))
    );

    assert_eq!(
        element("<p>hello world</p>"),
        Ok((
            Element::new(
                "p".to_string(),
                AttrMap::new(),
                vec![Text::new("hello world".to_string())]
            ),
            ""
        ))
    );

    assert_eq!(
        element("<div><p>hello world</p></div>"),
        Ok((
            Element::new(
                "div".to_string(),
                AttrMap::new(),
                vec![Element::new(
                    "p".to_string(),
                    AttrMap::new(),
                    vec![Text::new("hello world".to_string())]
                )]
            ),
            ""
        ))
    );

    assert!(element("<p>hello world</div>").is_err());
}

#[test]
fn attribute_map_equality_ignores_order() {
    let mut a = AttrMap::new();
    a.insert("x".to_string(), "1".to_string());
    a.insert("y".to_string(), "2".to_string());
    let mut b = AttrMap::new();
    b.insert("y".to_string(), "2".to_string());
    b.insert("x".to_string(), "1".to_string());
    assert_eq!(a, b);
    b.insert("x".to_string(), "3".to_string());
    assert_ne!(a, b);
    assert_eq!(b.get("x"), Some(&"3".to_string()));
    assert_eq!(b.get("z"), None);
}

#[test]
fn duplicate_attribute_keeps_last_value() {
    let mut expected = AttrMap::new();
    expected.insert("a".to_string(), "2".to_string());
    assert_eq!(attributes("a=\"1\" a=\"2\">"), Ok((expected, ">")));
}

#[test]
fn attribute_with_spaces_and_hyphen() {
    assert_eq!(
        attribute("data-x = \"a b\" rest"),
        Ok((("data-x".to_string(), "a b".to_string()), " rest"))
    );
}

#[test]
fn attribute_errors() {
    assert_eq!(attribute("=\"x\""), Err(ParseError { position: 0, kind: ErrorKind::Syntax(Expected::NameChar) }));
    assert_eq!(attribute("a=x"), Err(ParseError { position: 2, kind: ErrorKind::Syntax(Expected::Char('"')) }));
    assert_eq!(attribute("a=\"\""), Err(ParseError { position: 3, kind: ErrorKind::Syntax(Expected::ValueChar) }));
    assert_eq!(attribute("a=\"xy"), Err(ParseError { position: 5, kind: ErrorKind::Syntax(Expected::Char('"')) }));
}

#[test]
fn open_tag_with_bare_attribute_fails_at_the_bracket() {
    assert_eq!(open_tag("<p id>"), Err(ParseError { position: 5, kind: ErrorKind::Syntax(Expected::Char('=')) }));
}

#[test]
fn open_tag_with_trailing_space_and_two_attributes() {
    let mut attrs = AttrMap::new();
    attrs.insert("id".to_string(), "x".to_string());
    attrs.insert("class".to_string(), "y".to_string());
    assert_eq!(
        open_tag("<div class=\"y\"\nid=\"x\" >z"),
        Ok((("div".to_string(), attrs), "z"))
    );
}

#[test]
fn close_tag_errors() {
    assert_eq!(close_tag("<p>"), Err(ParseError { position: 1, kind: ErrorKind::Syntax(Expected::Char('/')) }));
    assert_eq!(close_tag("</1>"), Err(ParseError { position: 2, kind: ErrorKind::Syntax(Expected::Letter) }));
    assert_eq!(close_tag("</p"), Err(ParseError { position: 3, kind: ErrorKind::Syntax(Expected::Char('>')) }));
}

#[test]
fn text_runs_up_to_a_tag() {
    assert_eq!(text("ab c<p>"), Ok((Text::new("ab c".to_string()), "<p>")));
    assert_eq!(text("<p>"), Err(ParseError { position: 0, kind: ErrorKind::Syntax(Expected::TextChar) }));
}

#[test]
fn mismatched_close_tag_is_reported() {
    assert_eq!(
        element("<p>hello world</div>"),
        Err(ParseError { position: 14, kind: ErrorKind::MismatchedTagName })
    );
    assert_eq!(
        contents("x<b>y</i>"),
        Err(ParseError { position: 5, kind: ErrorKind::MismatchedTagName })
    );
}

#[test]
fn contents_mix_text_and_elements() {
    let mut attrs = AttrMap::new();
    attrs.insert("class".to_string(), "red".to_string());
    assert_eq!(
        contents("a<b>c</b><i x=\"y\"></i>d</p>"),
        Ok((
            vec![
                Text::new("a".to_string()),
                Element::new("b".to_string(), AttrMap::new(), vec![Text::new("c".to_string())]),
                Element::new("i".to_string(), {
                    let mut m = AttrMap::new();
                    m.insert("x".to_string(), "y".to_string());
                    m
                }, vec![]),
                Text::new("d".to_string()),
            ],
            "</p>"
        ))
    );
    assert_eq!(
        element("<span class=\"red\">hoge</span>"),
        Ok((Element::new("span".to_string(), attrs, vec![Text::new("hoge".to_string())]), ""))
    );
}

fn print_node(node: &Node) -> String {
    print_node_ordered(node, false)
}

fn print_node_ordered(node: &Node, reverse: bool) -> String {
    match &node.node_type {
        NodeType::Text(t) => t.data.clone(),
        NodeType::Element(e) => {
            let mut out = format!("<{}", e.tag_name);
            let mut pairs = e.attributes.pairs();
            if reverse {
                pairs.reverse();
            }
            for (name, value) in pairs {
                out.push_str(&format!(" {}=\"{}\"", name, value));
            }
            out.push('>');
            for child in &node.children {
                out.push_str(&print_node_ordered(child, reverse));
            }
            out.push_str(&format!("</{}>", e.tag_name));
            out
        }
    }
}

#[test]
fn parse_print_parse_gives_the_same_tree() {
    let source = "<div id = \"main\"\n class=\"a b\"><p>hello <b>bold</b> world</p><br></br>tail</div>";
    let (first, rest) = element(source).unwrap();
    assert_eq!(rest, "");
    let printed = print_node(&first);
    assert!(printed.len() < source.len());
    let (second, rest) = element(&printed).unwrap();
    assert_eq!(rest, "");
    assert_eq!(first, second);
    assert_eq!(print_node(&second), printed);
}

#[test]
fn parse_print_parse_with_repeated_attribute() {
    let (first, _) = element("<a x=\"1\"y=\"2\" x=\"3\">t</a>").unwrap();
    let printed = print_node(&first);
    let (second, rest) = element(&printed).unwrap();
    assert_eq!(rest, "");
    assert_eq!(first, second);
    let mut attrs = AttrMap::new();
    attrs.insert("x".to_string(), "3".to_string());
    attrs.insert("y".to_string(), "2".to_string());
    assert_eq!(second, Element::new("a".to_string(), attrs, vec![Text::new("t".to_string())]));
}

#[test]
fn open_tag_round_trip_of_written_attributes() {
    let mut attrs = AttrMap::new();
    attrs.insert("id".to_string(), "test".to_string());
    attrs.insert("data-role".to_string(), "main page".to_string());
    attrs.insert("lang".to_string(), "en".to_string());
    let mut written = "<section".to_string();
    for (name, value) in attrs.pairs() {
        written.push_str(&format!(" {}=\"{}\"", name, value));
    }
    written.push('>');
    assert_eq!(open_tag(&written), Ok((("section".to_string(), attrs), "")));
}

#[test]
fn element_keeps_the_rest_of_the_text() {
    assert_eq!(
        element("<p>x</p><p>y</p>"),
        Ok((Element::new("p".to_string(), AttrMap::new(), vec![Text::new("x".to_string())]), "<p>y</p>"))
    );
}

#[test]
fn element_without_close_tag_fails() {
    assert_eq!(element("<p>abc"), Err(ParseError { position: 6, kind: ErrorKind::Syntax(Expected::Char('<')) }));
}

fn nested(levels: usize) -> String {
    format!("{}x{}", "<a>".repeat(levels), "</a>".repeat(levels))
}

#[test]
fn nesting_up_to_the_limit_parses() {
    let text = nested(MAX_NESTING);
    let (node, rest) = element(&text).unwrap();
    assert_eq!(rest, "");
    let mut depth = 0;
    let mut current = &node;
    while let Some(child) = current.children.first() {
        depth += 1;
        current = child;
    }
    assert_eq!(depth, MAX_NESTING);
}

#[test]
fn nesting_past_the_limit_fails() {
    let text = nested(MAX_NESTING + 1);
    assert_eq!(
        element(&text),
        Err(ParseError { position: 3 * MAX_NESTING, kind: ErrorKind::NestingTooDeep })
    );
}

#[test]
fn printing_in_another_attribute_order_parses_back() {
    let (first, _) = element("<p a=\"1\" b=\"2\" c=\"3\"><i x=\"y\" z=\"w\">t</i></p>").unwrap();
    let forward = print_node_ordered(&first, false);
    let backward = print_node_ordered(&first, true);
    assert_ne!(forward, backward);
    assert_eq!(element(&backward), Ok((first, "")));
}
