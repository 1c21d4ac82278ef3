use webparse::css::lexer::{
    char_is_digit, char_is_letter, get_tokens, lex, reads_identifier, reads_number, tokenize,
    Lexed, StyleNumber, Token,
};
use webparse::css::parser::{
    combinator_of, parse_keyword, parse_length, parse_selectors, read_declaration, split,
    split_blocks, Declaration, Identifier, IdentifierType, Pseudo, PseudoType, Rule, Selector,
    SelectorChild, SelectorChildType, SelectorParser, Stylesheet, Unit, Value,
};
use webparse::css::{parse_declarations, parse_stylesheet};
use webparse::helper::{Error, ErrorKind, PreLexed, ValueFault, MAX_DEPTH};

fn ident(s: &str) -> Lexed {
    Lexed::Identifier(s.to_string())
}

fn num(s: &str) -> Lexed {
    Lexed::Number(StyleNumber::parse(s).unwrap())
}

fn lit(s: &str) -> Lexed {
    Lexed::String(s.to_string())
}

fn sym(t: Token) -> Lexed {
    Lexed::Token(t)
}

fn tokens(s: &str) -> Vec<Lexed> {
    lex(s.to_string()).unwrap()
}

fn simple(tag: Option<&str>, id: &[&str], class: &[&str]) -> Identifier {
    Identifier {
        id: id.iter().map(|s| s.to_string()).collect(),
        class: class.iter().map(|s| s.to_string()).collect(),
        i_type: IdentifierType::Simple { tag_name: tag.map(|s| s.to_string()) },
    }
}

fn selector(identifier: Option<Identifier>, child: Option<(Selector, SelectorChildType)>) -> Selector {
    Selector {
        identifier,
        pseudo: Vec::new(),
        child: child.map(|(selector, child_type)| Box::new(SelectorChild { selector, child_type })),
    }
}

fn tag(name: &str) -> Selector {
    selector(Some(simple(Some(name), &[], &[])), None)
}

fn length(s: &str) -> Value {
    Value::Length(StyleNumber::parse(s).unwrap(), Unit::Px)
}

fn unexpected(token: Lexed) -> Error {
    Error(ErrorKind::UnexpectedTokenInSelector(token))
}

fn unrecognized(text: &str, position: usize) -> Error {
    Error(ErrorKind::UnrecognizedToken(text.to_string(), position))
}

#[test]
fn symbol_table_of_stylesheets() {
    let table = get_tokens();
    assert_eq!(table.len(), 14);
    assert!(table.contains(&("::", Token::DoubleColon)));
    assert!(table.contains(&("px", Token::Px)));
    assert!(table.contains(&("%", Token::Percent)));
    assert!(!table.iter().any(|entry| entry.1 == Token::RGB));
}

#[test]
fn characters_classes() {
    assert!(char_is_digit('0') && char_is_digit('9') && !char_is_digit('a') && !char_is_digit('٣'));
    assert!(char_is_letter('a') && char_is_letter('Z') && !char_is_letter('_'));
    assert!(!char_is_letter('é') && !char_is_letter('['));
}

#[test]
fn identifier_grammar() {
    let yes = ["a", "div", "a1", "a-b", "a_b", "-a", "_a", "--a", "x-", "A9_-"];
    let no = ["", "1a", "-", "_", "--", "-1", "_9", "a b", "a.b", "é", "a$"];
    for s in yes {
        let chars: Vec<char> = s.chars().collect();
        assert!(reads_identifier(&chars, 0, chars.len()), "{}", s);
    }
    for s in no {
        let chars: Vec<char> = s.chars().collect();
        assert!(!reads_identifier(&chars, 0, chars.len()), "{}", s);
    }
    let chars: Vec<char> = "1abc2".chars().collect();
    assert!(reads_identifier(&chars, 1, 4));
    assert!(!reads_identifier(&chars, 0, 4));
}

#[test]
fn number_grammar_is_that_of_floats() {
    let cases = [
        "", "0", "10", "10.0", "1.", ".5", ".", "+", "-", "+1", "-1", "+.5", "-.5e3", "1e5",
        "1E5", "1e+5", "1e-5", "1e", "1e+", "e5", "1.5e", "1.e2", ".e2", "1..2", "1.2.3", "1e5.",
        "1e5e5", "inf", "INF", "Inf", "+inf", "-inf", "infinity", "-Infinity", "nan", "NaN",
        "+nan", "in", "infinit", "infinityy", "nanx", " 1", "1 ", "1_0", "0x10", "1,5", "１",
        "--1", "+-1", "1e--1", "00.00e00", "9999999999999999999999999999999999999999999",
    ];
    for s in cases {
        let chars: Vec<char> = s.chars().collect();
        assert_eq!(reads_number(&chars, 0, chars.len()), s.parse::<f32>().is_ok(), "{:?}", s);
        assert_eq!(StyleNumber::parse(s).is_some(), s.parse::<f32>().is_ok(), "{:?}", s);
    }
}

#[test]
fn style_number_keeps_its_literal() {
    let n = StyleNumber::parse("10.50").unwrap();
    assert_eq!(n.as_str(), "10.50");
    assert_eq!(n.as_str().parse::<f32>().unwrap(), 10.5);
    assert_eq!(n.clone(), n);
    assert!(StyleNumber::parse("ten").is_none());
}

#[test]
fn tokenize_a_rule() {
    assert_eq!(
        tokens("div { width: 10px; }"),
        vec![
            ident("div"),
            sym(Token::BraceOpen),
            ident("width"),
            sym(Token::Colon),
            num("10"),
            sym(Token::Px),
            sym(Token::SemiColon),
            sym(Token::BraceClose),
        ]
    );
}

#[test]
fn tokenize_longest_window_wins() {
    assert_eq!(tokens("a::b"), vec![ident("a"), sym(Token::DoubleColon), ident("b")]);
    assert_eq!(tokens("a:b"), vec![ident("a"), sym(Token::Colon), ident("b")]);
    assert_eq!(tokens(":::"), vec![sym(Token::DoubleColon), sym(Token::Colon)]);
    assert_eq!(tokens("px"), vec![sym(Token::Px)]);
    assert_eq!(tokens("pxx"), vec![ident("pxx")]);
    assert_eq!(tokens("1.5e3px"), vec![num("1.5e3"), sym(Token::Px)]);
    assert_eq!(tokens("10%"), vec![num("10"), sym(Token::Percent)]);
    assert_eq!(tokens("a.b"), vec![ident("a"), sym(Token::Dot), ident("b")]);
    assert_eq!(tokens("a .5"), vec![ident("a"), num(".5")]);
    assert_eq!(tokens("-1"), vec![num("-1")]);
    assert_eq!(tokens("+a"), vec![sym(Token::Plus), ident("a")]);
    assert_eq!(tokens("+inf"), vec![num("+inf")]);
    assert_eq!(tokens("inf"), vec![ident("inf")]);
}

#[test]
fn tokenize_white_space_separates_and_vanishes() {
    assert_eq!(tokens("  a \n b\t"), vec![ident("a"), ident("b")]);
    assert_eq!(tokens(""), Vec::<Lexed>::new());
    assert_eq!(tokens(" \n "), Vec::<Lexed>::new());
    assert_eq!(tokens("\"s\" \" t\""), vec![lit("s"), lit(" t")]);
}

#[test]
fn tokenize_unrecognized_token() {
    assert_eq!(lex("a $ b".to_string()), Err(unrecognized("$", 2)));
    assert_eq!(lex("$".to_string()), Err(unrecognized("$", 0)));
    assert_eq!(lex("  $a".to_string()), Err(unrecognized("$", 2)));
    assert_eq!(lex("a { width: 1p$ }".to_string()), Err(unrecognized("$", 13)));
    assert_eq!(lex("é".to_string()), Err(unrecognized("é", 0)));
    assert_eq!(lex("a \"q\" b ( c".to_string()), Err(unrecognized("(", 3)));
}

#[test]
fn tokenize_first_bad_span_wins() {
    let spans = vec![
        PreLexed::Rest("a".to_string()),
        PreLexed::Rest("b !".to_string()),
        PreLexed::String("?".to_string()),
        PreLexed::Rest("?".to_string()),
    ];
    assert_eq!(tokenize(spans), Err(unrecognized("!", 2)));
}

#[test]
fn split_cuts_at_the_symbol() {
    let groups = split(tokens("a, b c,,d"), &Token::Comma).unwrap();
    assert_eq!(
        groups,
        vec![vec![ident("a")], vec![ident("b"), ident("c")], vec![], vec![ident("d")]]
    );
    assert_eq!(split(Vec::new(), &Token::Comma).unwrap(), vec![Vec::<Lexed>::new()]);
    let groups = split(vec![lit(","), sym(Token::SemiColon)], &Token::Comma).unwrap();
    assert_eq!(groups, vec![vec![lit(","), sym(Token::SemiColon)]]);
}

#[test]
fn value_parsers() {
    assert_eq!(parse_length(&tokens("10px")), Ok(length("10")));
    assert_eq!(parse_length(&tokens("10px solid")), Ok(length("10")));
    assert_eq!(
        parse_length(&tokens("10")),
        Err(Error(ErrorKind::MalformedValue(ValueFault::TooShort)))
    );
    assert_eq!(parse_length(&[]), Err(Error(ErrorKind::MalformedValue(ValueFault::TooShort))));
    assert_eq!(
        parse_length(&tokens("a px")),
        Err(Error(ErrorKind::MalformedValue(ValueFault::NotANumber)))
    );
    assert_eq!(
        parse_length(&tokens("10%")),
        Err(Error(ErrorKind::MalformedValue(ValueFault::UnknownUnit)))
    );
    assert_eq!(
        parse_length(&tokens("10 em")),
        Err(Error(ErrorKind::MalformedValue(ValueFault::UnknownUnit)))
    );
    assert_eq!(parse_keyword(&tokens("block")), Ok(Value::Keyword("block".to_string())));
    assert_eq!(parse_keyword(&tokens("block 1")), Ok(Value::Keyword("block".to_string())));
    assert_eq!(
        parse_keyword(&[]),
        Err(Error(ErrorKind::MalformedValue(ValueFault::TooShort)))
    );
    assert_eq!(
        parse_keyword(&tokens("1")),
        Err(Error(ErrorKind::MalformedValue(ValueFault::NotAKeyword)))
    );
}

#[test]
fn read_one_declaration() {
    assert_eq!(
        read_declaration(&tokens("width: 5px")),
        Some(Declaration { name: "width".to_string(), value: length("5") })
    );
    assert_eq!(
        read_declaration(&tokens("display: none")),
        Some(Declaration { name: "display".to_string(), value: Value::Keyword("none".to_string()) })
    );
    assert_eq!(read_declaration(&tokens("width: none")), None);
    assert_eq!(read_declaration(&tokens("display: 5px")), None);
    assert_eq!(read_declaration(&tokens("height: 5px")), None);
    assert_eq!(read_declaration(&tokens("width 5px")), None);
    assert_eq!(read_declaration(&tokens("width:")), None);
    assert_eq!(read_declaration(&tokens("\"width\": 5px")), None);
    assert_eq!(read_declaration(&tokens("5: 5px")), None);
    assert_eq!(read_declaration(&[].to_vec()), None);
}

#[test]
fn declarations_drop_malformed_groups() {
    let declarations = parse_declarations("bogus: ; width: 5px;".to_string()).unwrap();
    assert_eq!(declarations, vec![Declaration { name: "width".to_string(), value: length("5") }]);
    match &declarations[0].value {
        Value::Length(number, Unit::Px) => assert_eq!(number.as_str().parse::<f32>(), Ok(5.0)),
        _ => panic!("width is a length"),
    }
}

#[test]
fn declarations_keep_the_order_of_the_source() {
    let declarations =
        parse_declarations("display: block; color: red; width: 1.5px; display: none".to_string())
            .unwrap();
    assert_eq!(
        declarations,
        vec![
            Declaration { name: "display".to_string(), value: Value::Keyword("block".to_string()) },
            Declaration { name: "width".to_string(), value: length("1.5") },
            Declaration { name: "display".to_string(), value: Value::Keyword("none".to_string()) },
        ]
    );
    assert_eq!(parse_declarations(String::new()).unwrap(), Vec::<Declaration>::new());
    assert_eq!(parse_declarations(";;;".to_string()).unwrap(), Vec::<Declaration>::new());
}

#[test]
fn declarations_fail_only_in_the_lexer() {
    assert_eq!(parse_declarations("width: 5px !".to_string()), Err(unrecognized("!", 11)));
}

#[test]
fn combinators() {
    assert_eq!(combinator_of(None), Some(SelectorChildType::Descendant));
    assert_eq!(combinator_of(Some(Token::GT)), Some(SelectorChildType::Child));
    assert_eq!(combinator_of(Some(Token::Tilde)), Some(SelectorChildType::GeneralSibling));
    assert_eq!(combinator_of(Some(Token::Plus)), Some(SelectorChildType::AdjacentSibling));
    assert_eq!(combinator_of(Some(Token::Star)), None);
    assert_eq!(combinator_of(Some(Token::Comma)), None);
    assert_eq!(combinator_of(Some(Token::Hash)), None);
}

#[test]
fn stylesheet_with_one_rule() {
    let sheet = parse_stylesheet("div { width: 10px; }".to_string()).unwrap();
    assert_eq!(
        sheet,
        Stylesheet {
            rules: vec![Rule {
                selectors: vec![tag("div")],
                declarations: vec![Declaration { name: "width".to_string(), value: length("10") }],
            }]
        }
    );
    let selector = &sheet.rules[0].selectors[0];
    let identifier = selector.identifier.as_ref().unwrap();
    assert_eq!(identifier.i_type, IdentifierType::Simple { tag_name: Some("div".to_string()) });
    assert!(identifier.id.is_empty() && identifier.class.is_empty());
    match &sheet.rules[0].declarations[0].value {
        Value::Length(number, unit) => {
            assert_eq!(number.as_str().parse::<f32>(), Ok(10.0));
            assert_eq!(*unit, Unit::Px);
        },
        _ => panic!("width is a length"),
    }
}

#[test]
fn stylesheet_child_combinator() {
    let sheet = parse_stylesheet("a > b { }".to_string()).unwrap();
    assert_eq!(
        sheet,
        Stylesheet {
            rules: vec![Rule {
                selectors: vec![selector(
                    Some(simple(Some("a"), &[], &[])),
                    Some((tag("b"), SelectorChildType::Child))
                )],
                declarations: vec![],
            }]
        }
    );
}

#[test]
fn selector_chain_of_every_combinator() {
    let selectors = parse_selectors(tokens("a b > c ~ d + e")).unwrap();
    let e = tag("e");
    let d = selector(Some(simple(Some("d"), &[], &[])), Some((e, SelectorChildType::AdjacentSibling)));
    let c = selector(Some(simple(Some("c"), &[], &[])), Some((d, SelectorChildType::GeneralSibling)));
    let b = selector(Some(simple(Some("b"), &[], &[])), Some((c, SelectorChildType::Child)));
    let a = selector(Some(simple(Some("a"), &[], &[])), Some((b, SelectorChildType::Descendant)));
    assert_eq!(selectors, vec![a]);
}

#[test]
fn selector_ids_and_classes_join_the_simple_selector() {
    let selectors = parse_selectors(tokens("div#main.big.red.big p#x.y, .c")).unwrap();
    assert_eq!(
        selectors,
        vec![
            selector(
                Some(simple(Some("div"), &["main"], &["big", "red"])),
                Some((
                    selector(Some(simple(Some("p"), &["x"], &["y"])), None),
                    SelectorChildType::Descendant
                ))
            ),
            selector(Some(simple(None, &[], &["c"])), None),
        ]
    );
}

#[test]
fn selector_white_space_before_a_hash_is_not_a_combinator() {
    let selectors = parse_selectors(tokens("a #b")).unwrap();
    assert_eq!(selectors, vec![selector(Some(simple(Some("a"), &["b"], &[])), None)]);
}

#[test]
fn selector_star_and_pseudo() {
    let selectors = parse_selectors(tokens("*")).unwrap();
    let all = Identifier { id: vec![], class: vec![], i_type: IdentifierType::Everything };
    assert_eq!(selectors, vec![selector(Some(all), None)]);
    let selectors = parse_selectors(tokens("*.c")).unwrap();
    let all = Identifier {
        id: vec![],
        class: vec!["c".to_string()],
        i_type: IdentifierType::Everything,
    };
    assert_eq!(selectors, vec![selector(Some(all), None)]);
    let selectors = parse_selectors(tokens("a:hover::before")).unwrap();
    assert_eq!(selectors, vec![tag("a")]);
    assert!(selectors[0].pseudo.is_empty());
}

#[test]
fn selector_numbers_are_passed_over() {
    let selectors = parse_selectors(tokens("1 a")).unwrap();
    assert_eq!(selectors, vec![selector(None, Some((tag("a"), SelectorChildType::Descendant)))]);
    let selectors = parse_selectors(tokens("> a")).unwrap();
    assert_eq!(selectors, vec![selector(None, Some((tag("a"), SelectorChildType::Child)))]);
}

#[test]
fn selector_of_no_tokens_names_nothing() {
    assert_eq!(parse_selectors(Vec::new()).unwrap(), vec![selector(None, None)]);
    assert_eq!(
        parse_selectors(tokens("a,")).unwrap(),
        vec![tag("a"), selector(None, None)]
    );
}

#[test]
fn selector_unexpected_tokens() {
    assert_eq!(parse_selectors(tokens("a \"s\"")), Err(unexpected(lit("s"))));
    assert_eq!(parse_selectors(tokens("a *")), Err(unexpected(sym(Token::Star))));
    assert_eq!(parse_selectors(tokens("* a")), Err(unexpected(sym(Token::Star))));
    assert_eq!(parse_selectors(tokens("a % b")), Err(unexpected(sym(Token::Percent))));
    assert_eq!(parse_selectors(tokens("a ; b")), Err(unexpected(sym(Token::SemiColon))));
    assert_eq!(parse_selectors(tokens("a, b, c px d, \"x\"")), Err(unexpected(sym(Token::Px))));
    assert_eq!(parse_selectors(tokens("a > b \"x\"")), Err(unexpected(lit("x"))));
}

#[test]
fn selector_depth_limit() {
    let mut chain = String::new();
    for _ in 0..MAX_DEPTH {
        chain.push_str("a ");
    }
    let selectors = parse_selectors(tokens(&chain)).unwrap();
    let mut links = 1;
    let mut at = &selectors[0];
    while let Some(next) = &at.child {
        at = &next.selector;
        links += 1;
    }
    assert_eq!(links, MAX_DEPTH);
    chain.push_str("a");
    assert_eq!(parse_selectors(tokens(&chain)), Err(Error(ErrorKind::TooDeep)));
}

#[test]
fn selector_parser_cursor() {
    let mut parser = SelectorParser::new();
    assert_eq!(parser.current, 0);
    assert!(parser.lexed.is_empty());
    assert_eq!(parser.parse_selector().unwrap(), selector(None, None));
    parser.reset(tokens("a > b"));
    assert_eq!(parser.current, 0);
    assert_eq!(parser.lexed, tokens("a > b"));
    parser.current = 2;
    assert_eq!(parser.parse_selector().unwrap(), tag("b"));
    assert_eq!(parser.current, 3);
    parser.reset(tokens("a *"));
    assert_eq!(parser.parse_selector(), Err(unexpected(sym(Token::Star))));
    assert_eq!(parser.current, 0);
    parser.current = 7;
    assert_eq!(parser.parse_selector().unwrap(), selector(None, None));
    assert_eq!(parser.current, 7);
}

#[test]
fn blocks_follow_the_braces() {
    assert_eq!(
        split_blocks(tokens("a { x } b, c { y; z } d")),
        vec![
            (tokens("a"), tokens("x")),
            (tokens("b, c"), tokens("y; z")),
        ]
    );
    assert_eq!(split_blocks(tokens("a { x")), vec![(tokens("a"), vec![])]);
    assert_eq!(split_blocks(tokens("{}")), vec![(vec![], vec![])]);
    assert_eq!(split_blocks(tokens("a")), vec![]);
    assert_eq!(
        split_blocks(tokens("a { b { c } d } e { f }")),
        vec![(tokens("a"), tokens("b { c")), (tokens("d } e"), tokens("f"))]
    );
}

#[test]
fn stylesheet_rules_in_source_order() {
    let sheet = parse_stylesheet(
        "h1, h2 { display: block; width: 100px }\n.note > p { display: none; }\n".to_string(),
    )
    .unwrap();
    assert_eq!(
        sheet.rules,
        vec![
            Rule {
                selectors: vec![tag("h1"), tag("h2")],
                declarations: vec![
                    Declaration {
                        name: "display".to_string(),
                        value: Value::Keyword("block".to_string())
                    },
                    Declaration { name: "width".to_string(), value: length("100") },
                ],
            },
            Rule {
                selectors: vec![selector(
                    Some(simple(None, &[], &["note"])),
                    Some((tag("p"), SelectorChildType::Child))
                )],
                declarations: vec![Declaration {
                    name: "display".to_string(),
                    value: Value::Keyword("none".to_string())
                }],
            },
        ]
    );
}

#[test]
fn stylesheet_without_blocks_has_no_rules() {
    assert_eq!(parse_stylesheet(String::new()).unwrap(), Stylesheet { rules: vec![] });
    assert_eq!(parse_stylesheet("a b c".to_string()).unwrap(), Stylesheet { rules: vec![] });
}

#[test]
fn stylesheet_selector_error_aborts() {
    assert_eq!(parse_stylesheet("a { } } b { }".to_string()), Err(unexpected(sym(Token::BraceClose))));
    assert_eq!(parse_stylesheet("a { } \"s\" { }".to_string()), Err(unexpected(lit("s"))));
    assert_eq!(parse_stylesheet("a { } $ { }".to_string()), Err(unrecognized("$", 6)));
}

#[test]
fn pseudo_classes_are_plain_values() {
    assert_eq!(Pseudo::Match(PseudoType::FirstChild), Pseudo::Match(PseudoType::FirstChild));
    assert_ne!(Pseudo::Match(PseudoType::FirstChild), Pseudo::Not(PseudoType::FirstChild));
    assert_ne!(Pseudo::Not(PseudoType::FirstChild), Pseudo::Not(PseudoType::LastChild));
    let color = Value::Color { r: 1, g: 2, b: 3, a: 255 };
    assert_eq!(color, Value::Color { r: 1, g: 2, b: 3, a: 255 });
    assert_eq!(IdentifierType::Any, IdentifierType::Any);
}
