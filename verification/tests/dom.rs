use webparse::dom::lexer::{
    advance, compress_tokens, get_tokens, lex, merge, taginize, tokenize, Builder, Lexed, Tag,
    TagContents, TagStatus, Token,
};
use webparse::dom::parse_dom;
use webparse::dom::parser::{parse, ElementData, Node, NodeType, Parser};
use webparse::helper::{pre_lex, Error, ErrorKind, PreLexed, TagFault, MAX_DEPTH};
use webparse::AttrMap;

fn attrs(list: &[(&str, Option<&str>)]) -> AttrMap {
    let mut m = AttrMap::new();
    for (name, value) in list {
        m.insert(name.to_string(), value.map(|v| v.to_string()));
    }
    m
}

fn text(s: &str) -> Node {
    Node { children: Vec::new(), node_type: NodeType::Text(s.to_string()) }
}

fn element(name: &str, list: &[(&str, Option<&str>)], children: Vec<Node>) -> Node {
    Node {
        children,
        node_type: NodeType::Element(ElementData {
            tag_name: name.to_string(),
            attributes: attrs(list),
        }),
    }
}

fn tag(name: &str, list: &[(&str, Option<&str>)], status: TagStatus) -> TagContents {
    TagContents::Tag(Tag { name: name.to_string(), attrs: attrs(list), status })
}

fn content(s: &str) -> TagContents {
    TagContents::Content(s.to_string())
}

fn sym(t: Token) -> Lexed {
    Lexed::Token(t)
}

fn run(s: &str) -> Lexed {
    Lexed::Content(s.to_string())
}

fn lit(s: &str) -> Lexed {
    Lexed::String(s.to_string())
}

fn fault(f: TagFault) -> Error {
    Error(ErrorKind::StructuralTag(f))
}

fn tokens_of(s: &str) -> Vec<Lexed> {
    tokenize(pre_lex(s.to_string()).unwrap()).unwrap()
}

#[test]
fn symbol_table_has_the_four_symbols() {
    assert_eq!(
        get_tokens(),
        vec![("<", Token::LT), (">", Token::GT), ("=", Token::Equals), ("/", Token::Slash)]
    );
}

#[test]
fn tokenize_sets_symbols_and_runs_apart() {
    assert_eq!(
        tokens_of("<a x=\"1\" y>t</a>"),
        vec![
            sym(Token::LT),
            run("a x"),
            sym(Token::Equals),
            lit("1"),
            run("y"),
            sym(Token::GT),
            run("t"),
            sym(Token::LT),
            sym(Token::Slash),
            run("a"),
            sym(Token::GT),
        ]
    );
}

#[test]
fn tokenize_trims_runs_and_drops_white_space() {
    assert_eq!(tokens_of("  hello  world \n"), vec![run("hello  world")]);
    assert_eq!(tokens_of(" \t\n"), Vec::<Lexed>::new());
    assert_eq!(tokens_of(""), Vec::<Lexed>::new());
    assert_eq!(tokens_of(" < a > "), vec![sym(Token::LT), run("a"), sym(Token::GT)]);
}

#[test]
fn tokenize_passes_literals_through_untouched() {
    assert_eq!(
        tokenize(vec![PreLexed::String(" <a> ".to_string())]).unwrap(),
        vec![lit(" <a> ")]
    );
    assert_eq!(tokens_of("\"\""), vec![lit("")]);
}

#[test]
fn tokenize_takes_text_of_any_script() {
    assert_eq!(
        tokens_of("<é>ü, ß!</é>"),
        vec![
            sym(Token::LT),
            run("é"),
            sym(Token::GT),
            run("ü, ß!"),
            sym(Token::LT),
            sym(Token::Slash),
            run("é"),
            sym(Token::GT),
        ]
    );
}

#[test]
fn merge_knows_the_two_pairs() {
    assert_eq!(merge(Token::Slash, Token::GT), Some(Token::SelfClose));
    assert_eq!(merge(Token::LT, Token::Slash), Some(Token::CloseTag));
    assert_eq!(merge(Token::GT, Token::LT), None);
    assert_eq!(merge(Token::Slash, Token::LT), None);
    assert_eq!(merge(Token::GT, Token::Slash), None);
}

#[test]
fn compress_joins_pairs_from_the_left() {
    let out = compress_tokens(vec![
        sym(Token::Slash),
        sym(Token::GT),
        sym(Token::LT),
        sym(Token::Slash),
    ])
    .unwrap();
    assert_eq!(out, vec![sym(Token::SelfClose), sym(Token::CloseTag)]);
    let out = compress_tokens(vec![sym(Token::LT), sym(Token::Slash), sym(Token::GT)]).unwrap();
    assert_eq!(out, vec![sym(Token::CloseTag), sym(Token::GT)]);
    let out = compress_tokens(vec![sym(Token::Slash), sym(Token::GT), sym(Token::LT)]).unwrap();
    assert_eq!(out, vec![sym(Token::SelfClose), sym(Token::LT)]);
}

#[test]
fn compress_stops_at_text_and_literals() {
    let out = compress_tokens(vec![sym(Token::LT), run("a"), sym(Token::Slash)]).unwrap();
    assert_eq!(out, vec![sym(Token::LT), run("a"), sym(Token::Slash)]);
    let out = compress_tokens(vec![sym(Token::Slash), lit(""), sym(Token::GT)]).unwrap();
    assert_eq!(out, vec![sym(Token::Slash), lit(""), sym(Token::GT)]);
    assert_eq!(compress_tokens(Vec::new()).unwrap(), Vec::<Lexed>::new());
}

#[test]
fn compress_leaves_single_symbols() {
    let out = compress_tokens(vec![sym(Token::GT), sym(Token::LT), sym(Token::Equals)]).unwrap();
    assert_eq!(out, vec![sym(Token::GT), sym(Token::LT), sym(Token::Equals)]);
    let out = compress_tokens(vec![sym(Token::LT)]).unwrap();
    assert_eq!(out, vec![sym(Token::LT)]);
}

#[test]
fn advance_opens_a_tag_and_flushes_text() {
    let state = Builder::Outside { text: "hi".to_string() };
    let (next, item) = advance(state, sym(Token::LT)).unwrap();
    assert_eq!(
        next,
        Builder::InTag {
            name: None,
            attrs: Vec::new(),
            status: TagStatus::Open,
            after_equals: false
        }
    );
    assert_eq!(item, Some(content("hi")));
    let state = Builder::Outside { text: String::new() };
    let (next, item) = advance(state, sym(Token::CloseTag)).unwrap();
    assert_eq!(
        next,
        Builder::InTag {
            name: None,
            attrs: Vec::new(),
            status: TagStatus::Close,
            after_equals: false
        }
    );
    assert_eq!(item, None);
}

#[test]
fn advance_gathers_text_outside_of_tags() {
    let mut state = Builder::Outside { text: String::new() };
    for token in [run("a"), sym(Token::Equals), lit("b"), sym(Token::Slash)] {
        let (next, item) = advance(state, token).unwrap();
        assert_eq!(item, None);
        state = next;
    }
    assert_eq!(state, Builder::Outside { text: "a=b/".to_string() });
}

#[test]
fn advance_reads_name_and_attributes() {
    let state = Builder::InTag {
        name: None,
        attrs: Vec::new(),
        status: TagStatus::Open,
        after_equals: false,
    };
    let (state, _) = advance(state, run("div id  hidden")).unwrap();
    assert_eq!(
        state,
        Builder::InTag {
            name: Some("div".to_string()),
            attrs: vec![
                ("id".to_string(), None),
                ("".to_string(), None),
                ("hidden".to_string(), None)
            ],
            status: TagStatus::Open,
            after_equals: false,
        }
    );
    let (state, _) = advance(state, run("x")).unwrap();
    let (state, _) = advance(state, sym(Token::Equals)).unwrap();
    let (state, _) = advance(state, lit("1")).unwrap();
    assert_eq!(
        state,
        Builder::InTag {
            name: Some("div".to_string()),
            attrs: vec![
                ("id".to_string(), None),
                ("".to_string(), None),
                ("hidden".to_string(), None),
                ("x".to_string(), Some("1".to_string())),
            ],
            status: TagStatus::Open,
            after_equals: false,
        }
    );
    let (state, item) = advance(state, sym(Token::GT)).unwrap();
    assert_eq!(state, Builder::Outside { text: String::new() });
    assert_eq!(
        item,
        Some(tag("div", &[("id", None), ("hidden", None), ("x", Some("1"))], TagStatus::Open))
    );
}

#[test]
fn advance_ignores_a_literal_without_equals() {
    let state = Builder::InTag {
        name: Some("a".to_string()),
        attrs: vec![("x".to_string(), None)],
        status: TagStatus::Open,
        after_equals: false,
    };
    let (next, item) = advance(state, lit("v")).unwrap();
    assert_eq!(item, None);
    assert_eq!(
        next,
        Builder::InTag {
            name: Some("a".to_string()),
            attrs: vec![("x".to_string(), None)],
            status: TagStatus::Open,
            after_equals: false,
        }
    );
}

#[test]
fn taginize_builds_the_flat_stream() {
    let tags = lex("pre<a x=\"1\" y>t</a><br/>post".to_string()).unwrap();
    assert_eq!(
        tags,
        vec![
            content("pre"),
            tag("a", &[("x", Some("1")), ("y", None)], TagStatus::Open),
            content("t"),
            tag("a", &[], TagStatus::Close),
            tag("br", &[], TagStatus::SelfClose),
        ]
    );
}

#[test]
fn taginize_later_attribute_takes_the_place_of_earlier() {
    let tags = lex("<a x=\"1\" x=\"2\" x>".to_string()).unwrap();
    assert_eq!(tags, vec![tag("a", &[("x", None)], TagStatus::Open)]);
    let tags = lex("<a x x=\"2\">".to_string()).unwrap();
    assert_eq!(tags, vec![tag("a", &[("x", Some("2"))], TagStatus::Open)]);
}

#[test]
fn taginize_drops_an_open_tag_at_the_end() {
    assert_eq!(lex("<a><b".to_string()).unwrap(), vec![tag("a", &[], TagStatus::Open)]);
    assert_eq!(lex("just text".to_string()).unwrap(), Vec::<TagContents>::new());
}

#[test]
fn taginize_slash_in_text_is_content() {
    let tags = lex("a / b = c<x>".to_string()).unwrap();
    assert_eq!(tags, vec![content("a/b=c"), tag("x", &[], TagStatus::Open)]);
}

#[test]
fn taginize_structural_errors() {
    assert_eq!(lex("<a<b>".to_string()), Err(fault(TagFault::NestedOpen)));
    assert_eq!(lex("<a</b>".to_string()), Err(fault(TagFault::NestedOpen)));
    assert_eq!(lex("a>".to_string()), Err(fault(TagFault::StrayClose)));
    assert_eq!(lex("a/>".to_string()), Err(fault(TagFault::StrayClose)));
    assert_eq!(lex("<>".to_string()), Err(fault(TagFault::NoName)));
    assert_eq!(lex("</>".to_string()), Err(fault(TagFault::NoName)));
    assert_eq!(lex("</a/>".to_string()), Err(fault(TagFault::SelfClosingClose)));
    assert_eq!(lex("<a / b>".to_string()), Err(fault(TagFault::SlashInTag)));
}

#[test]
fn taginize_no_name_goes_before_self_close_conflict() {
    assert_eq!(
        taginize(vec![sym(Token::CloseTag), sym(Token::SelfClose)]),
        Err(fault(TagFault::NoName))
    );
}

#[test]
fn taginize_wrong_equals() {
    assert_eq!(lex("<a =\"1\">".to_string()), Err(Error(ErrorKind::WrongEquals)));
    assert_eq!(lex("<=\"1\">".to_string()), Err(Error(ErrorKind::WrongEquals)));
}

#[test]
fn taginize_first_error_wins() {
    assert_eq!(lex("<a =\"1\"> > <".to_string()), Err(Error(ErrorKind::WrongEquals)));
    assert_eq!(lex("> <a =\"1\">".to_string()), Err(fault(TagFault::StrayClose)));
}

#[test]
fn parse_self_closing_child() {
    let tree = parse_dom("<a><b/></a>".to_string()).unwrap();
    assert_eq!(tree, element("a", &[], vec![element("b", &[], vec![])]));
    match &tree.children[0].node_type {
        NodeType::Element(data) => assert_eq!(data.tag_name, "b"),
        NodeType::Text(_) => panic!("b is an element"),
    }
    assert!(tree.children[0].children.is_empty());
}

#[test]
fn parse_attributes_and_text() {
    let tree = parse_dom("<a x=\"1\" y>t</a>".to_string()).unwrap();
    assert_eq!(tree, element("a", &[("x", Some("1")), ("y", None)], vec![text("t")]));
    match &tree.node_type {
        NodeType::Element(data) => {
            assert_eq!(data.attributes.len(), 2);
            assert_eq!(data.attributes.get("x"), Some(&Some("1".to_string())));
            assert_eq!(data.attributes.get("y"), Some(&None));
        },
        NodeType::Text(_) => panic!("a is an element"),
    }
}

#[test]
fn parse_unterminated_element() {
    assert_eq!(
        parse_dom("<a><b></b>".to_string()),
        Err(Error(ErrorKind::UnterminatedElement("a".to_string())))
    );
    assert_eq!(
        parse_dom("<a><b>".to_string()),
        Err(Error(ErrorKind::UnterminatedElement("b".to_string())))
    );
    assert_eq!(
        parse_dom("<a>text".to_string()),
        Err(Error(ErrorKind::UnterminatedElement("a".to_string())))
    );
}

#[test]
fn parse_balanced_text_mirrors_its_tags() {
    let tree = parse_dom(
        "<html><head><title>T</title></head><body class=\"x\"><p>one<br/>two</p><p></p></body></html>"
            .to_string(),
    )
    .unwrap();
    assert_eq!(
        tree,
        element(
            "html",
            &[],
            vec![
                element("head", &[], vec![element("title", &[], vec![text("T")])]),
                element(
                    "body",
                    &[("class", Some("x"))],
                    vec![
                        element("p", &[], vec![text("one"), element("br", &[], vec![]), text("two")]),
                        element("p", &[], vec![]),
                    ]
                ),
            ]
        )
    );
}

#[test]
fn parse_same_name_nested() {
    let tree = parse_dom("<a><a>x</a><a/></a>".to_string()).unwrap();
    assert_eq!(
        tree,
        element("a", &[], vec![element("a", &[], vec![text("x")]), element("a", &[], vec![])])
    );
}

#[test]
fn parse_adjacent_self_closing_tags() {
    let tree = parse_dom("<r><a/><b/></r>".to_string()).unwrap();
    assert_eq!(
        tree,
        element("r", &[], vec![element("a", &[], vec![]), element("b", &[], vec![])])
    );
}

#[test]
fn parse_close_tag_of_another_name_ends_the_element() {
    let tree = parse_dom("<a><b>x</a>".to_string()).unwrap();
    assert_eq!(tree, element("a", &[], vec![element("b", &[], vec![text("x")])]));
    let tree = parse_dom("<a>x</b>".to_string()).unwrap();
    assert_eq!(tree, element("a", &[], vec![text("x")]));
}

#[test]
fn parse_ignores_what_follows_the_root() {
    let tree = parse_dom("<a></a><b></b>".to_string()).unwrap();
    assert_eq!(tree, element("a", &[], vec![]));
}

#[test]
fn parse_lone_self_closing_root() {
    assert_eq!(parse_dom("<a/>".to_string()).unwrap(), element("a", &[], vec![]));
    assert_eq!(parse_dom("< a / >".to_string()).unwrap(), element("a", &[], vec![]));
}

#[test]
fn parse_node_is_content() {
    assert_eq!(parse_dom("text<a></a>".to_string()), Err(Error(ErrorKind::NodeIsContent)));
}

#[test]
fn parse_no_element() {
    assert_eq!(parse_dom(String::new()), Err(Error(ErrorKind::NoElement)));
    assert_eq!(parse_dom("only text".to_string()), Err(Error(ErrorKind::NoElement)));
    assert_eq!(parse(Vec::new()), Err(Error(ErrorKind::NoElement)));
}

#[test]
fn parse_lexer_error_aborts() {
    assert_eq!(parse_dom("<a><b<</a>".to_string()), Err(fault(TagFault::NestedOpen)));
}

#[test]
fn parse_depth_limit() {
    let mut deep = String::new();
    for _ in 0..MAX_DEPTH {
        deep.push_str("<a>");
    }
    for _ in 0..MAX_DEPTH {
        deep.push_str("</a>");
    }
    let mut tree = parse_dom(deep).unwrap();
    let mut levels = 1;
    while !tree.children.is_empty() {
        tree = tree.children.remove(0);
        levels += 1;
    }
    assert_eq!(levels, MAX_DEPTH);
    let mut deeper = String::new();
    for _ in 0..MAX_DEPTH + 1 {
        deeper.push_str("<a>");
    }
    for _ in 0..MAX_DEPTH + 1 {
        deeper.push_str("</a>");
    }
    assert_eq!(parse_dom(deeper), Err(Error(ErrorKind::TooDeep)));
}

#[test]
fn parser_cursor_moves_to_the_end_of_the_node() {
    let tags = lex("<a><b/></a><c/>".to_string()).unwrap();
    let mut parser = Parser::new(tags);
    assert_eq!(parser.current, 0);
    let node = parser.get_node().unwrap();
    assert_eq!(node, element("a", &[], vec![element("b", &[], vec![])]));
    assert_eq!(parser.current, 2);
    parser.current = 3;
    assert_eq!(parser.get_node().unwrap(), element("c", &[], vec![]));
    assert_eq!(parser.current, 3);
    parser.current = 4;
    assert_eq!(parser.get_node(), Err(Error(ErrorKind::NoElement)));
    assert_eq!(parser.current, 4);
}

#[test]
fn parser_starts_a_node_at_a_closing_tag() {
    let tags = vec![tag("a", &[], TagStatus::Close), content("x"), tag("a", &[], TagStatus::Close)];
    assert_eq!(parse(tags).unwrap(), element("a", &[], vec![text("x")]));
}

#[test]
fn parse_text_is_trimmed_between_tags() {
    let tree = parse_dom("<p>  hello world  <b> ! </b>\n</p>".to_string()).unwrap();
    assert_eq!(
        tree,
        element("p", &[], vec![text("hello world"), element("b", &[], vec![text("!")])])
    );
}

#[test]
fn parse_quoted_text_outside_of_tags_joins_the_text() {
    let tree = parse_dom("<p>say \"hi\" now</p>".to_string()).unwrap();
    assert_eq!(tree, element("p", &[], vec![text("sayhinow")]));
}

fn stream_of(node: &Node, out: &mut Vec<TagContents>, lone: bool) {
    match &node.node_type {
        NodeType::Text(s) => out.push(content(s)),
        NodeType::Element(data) => {
            let list: Vec<(String, Option<String>)> = ["x", "y", "class"]
                .iter()
                .filter_map(|name| {
                    data.attributes.get(name).map(|value| (name.to_string(), value.clone()))
                })
                .collect();
            let mut m = AttrMap::new();
            for (name, value) in list {
                m.insert(name, value);
            }
            if node.children.is_empty() && lone {
                out.push(TagContents::Tag(Tag {
                    name: data.tag_name.clone(),
                    attrs: m,
                    status: TagStatus::SelfClose,
                }));
            } else {
                out.push(TagContents::Tag(Tag {
                    name: data.tag_name.clone(),
                    attrs: m,
                    status: TagStatus::Open,
                }));
                for child in &node.children {
                    stream_of(child, out, lone);
                }
                out.push(tag(&data.tag_name, &[("ignored", None)], TagStatus::Close));
            }
        },
    }
}

#[test]
fn written_tree_parses_back() {
    let tree = element(
        "html",
        &[("x", Some("1"))],
        vec![
            text("a"),
            text("b"),
            element("p", &[("class", None)], vec![element("p", &[], vec![]), text("c")]),
            element("br", &[], vec![]),
        ],
    );
    for lone in [false, true] {
        let mut stream = Vec::new();
        stream_of(&tree, &mut stream, lone);
        assert_eq!(parse(stream).as_ref(), Ok(&tree));
    }
}

#[test]
fn attributes_in_another_order_make_the_same_tag() {
    assert_eq!(
        parse_dom("<a x=\"1\" y z=\"\">t</a>".to_string()),
        parse_dom("<a z=\"\" y x=\"1\">t</a>".to_string())
    );
    assert_ne!(
        parse_dom("<a x=\"1\" y>t</a>".to_string()),
        parse_dom("<a x y=\"1\">t</a>".to_string())
    );
}
