use webparse::css::lexer::{lex, Lexed, StyleNumber, Token};
use webparse::css::parser::{
    parse_declarations, parse_selectors, parse_stylesheet, Declaration, Rule, Selector,
    SelectorChild, SelectorChildType, Stylesheet, Unit, Value,
};
use webparse::css::writer::{
    write_declaration, write_declarations, write_rule, write_selector, write_selectors,
};

fn tokens(s: &str) -> Vec<Lexed> {
    lex(s.to_string()).unwrap()
}

fn rules(s: &str) -> Vec<Rule> {
    parse_stylesheet(tokens(s)).unwrap().rules
}

#[test]
fn zero_is_a_number() {
    assert_eq!(StyleNumber::zero().as_str(), "0");
    assert_eq!(Some(StyleNumber::zero()), StyleNumber::parse("0"));
}

#[test]
fn a_rule_is_written_as_it_reads() {
    let rule = rules("div#main.big > p , a { width: 10px; display: block }").remove(0);
    assert_eq!(
        write_rule(&rule),
        tokens("div #main .big > p , a { width : 10 px ; display : block }")
    );
}

#[test]
fn written_rules_parse_back() {
    let sheets = [
        "div { width: 10px; }",
        "a > b { }",
        "a b > c ~ d + e, f { display: none; width: 1.5e3px; display: block }",
        "div#main.big.red.big p#x.y, .c { bogus: ; width: 5px; }",
        "*, *.c, *#i.c a, * > a, * :hover a { }",
        "> a, 1 a, ~ a b, + .c d { }",
        "#x, #x a, #x > a, .c.d#e f { display: inline }",
        "a, , b { }",
        "{ }",
        "a::before:hover b { width: 0px }",
        "a { width: 1px } b { width: 2px } c { }",
        "a { width: 1px",
    ];
    for sheet in sheets {
        for rule in rules(sheet) {
            let written = write_rule(&rule);
            assert_eq!(
                parse_stylesheet(written),
                Ok(Stylesheet { rules: vec![rule] }),
                "{}",
                sheet
            );
        }
    }
}

#[test]
fn bare_star_with_a_descendant_is_written_with_a_pseudo_class() {
    let mut selectors = parse_selectors(tokens("* :hover a")).unwrap();
    let selector = selectors.remove(0);
    let mut out = Vec::new();
    write_selector(&selector, &mut out);
    assert_eq!(out, tokens("* :x a"));
    assert_eq!(parse_selectors(out).unwrap(), vec![selector]);
}

#[test]
fn chain_without_a_first_selector_is_written_behind_a_number() {
    let mut selectors = parse_selectors(tokens("5 a")).unwrap();
    let selector = selectors.remove(0);
    let mut out = vec![Lexed::Token(Token::Comma)];
    write_selector(&selector, &mut out);
    assert_eq!(out, tokens(", 0 a"));
}

#[test]
fn selectors_are_set_apart_by_commas() {
    let selectors = parse_selectors(tokens("a, b c, ")).unwrap();
    let mut out = Vec::new();
    write_selectors(&selectors, &mut out);
    assert_eq!(out, tokens("a, b c,"));
    assert_eq!(parse_selectors(out).unwrap(), selectors);
    let mut out = Vec::new();
    write_selectors(&Vec::new(), &mut out);
    assert!(out.is_empty());
}

#[test]
fn declarations_are_set_apart_by_semicolons() {
    let declarations = parse_declarations(tokens("width: 5px; display: none;")).unwrap();
    let mut out = Vec::new();
    write_declarations(&declarations, &mut out);
    assert_eq!(out, tokens("width: 5px; display: none"));
    assert_eq!(parse_declarations(out).unwrap(), declarations);
    let mut out = Vec::new();
    write_declarations(&Vec::new(), &mut out);
    assert!(out.is_empty());
}

#[test]
fn a_colour_has_no_tokens() {
    let declaration = Declaration {
        name: "color".to_string(),
        value: Value::Color { r: 1, g: 2, b: 3, a: 4 },
    };
    let mut out = Vec::new();
    write_declaration(&declaration, &mut out);
    assert_eq!(out, tokens("color:"));
    let declaration = Declaration {
        name: "width".to_string(),
        value: Value::Length(StyleNumber::parse("2").unwrap(), Unit::Px),
    };
    let mut out = Vec::new();
    write_declaration(&declaration, &mut out);
    assert_eq!(out, tokens("width: 2px"));
}

#[test]
fn a_long_chain_is_written_link_by_link() {
    let mut chain = parse_selectors(tokens("z")).unwrap().remove(0);
    for _ in 0..2000 {
        let mut head = parse_selectors(tokens("a")).unwrap().remove(0);
        head.child = Some(Box::new(SelectorChild {
            selector: chain,
            child_type: SelectorChildType::Child,
        }));
        chain = head;
    }
    let chain: Selector = chain;
    let mut out = Vec::new();
    write_selector(&chain, &mut out);
    assert_eq!(out.len(), 2 * 2000 + 1);
    assert_eq!(out[0], tokens("a")[0]);
    assert_eq!(out[1], Lexed::Token(Token::GT));
    assert_eq!(out[out.len() - 1], tokens("z")[0]);
}
