use webparse::css::lexer::{lex, symbol_text, Lexed, Token};
use webparse::css::parse_stylesheet;
use webparse::css::parser::Stylesheet;
use webparse::css::printer::{print_rule, print_tokens};

fn tokens(s: &str) -> Vec<Lexed> {
    lex(s.to_string()).unwrap()
}

#[test]
fn symbols_are_spelled_as_the_table_has_them() {
    for (text, token) in webparse::css::lexer::get_tokens() {
        assert_eq!(symbol_text(token), Some(text));
    }
    assert_eq!(symbol_text(Token::ParOpen), None);
    assert_eq!(symbol_text(Token::ParClose), None);
    assert_eq!(symbol_text(Token::RGB), None);
}

#[test]
fn tokens_print_with_a_space_behind_each() {
    assert_eq!(print_tokens(&tokens("a>b{width:10px}")), "a > b { width : 10 px } ");
    assert_eq!(print_tokens(&tokens("a::b \"s t\"")), "a :: b \"s t\" ");
    assert_eq!(print_tokens(&Vec::new()), "");
    assert_eq!(print_tokens(&vec![Lexed::Token(Token::RGB)]), " ");
}

#[test]
fn printed_tokens_are_tokenized_again() {
    let texts = [
        "div { width: 10px; }",
        "a::b:c > d ~ e + f, g.h#i * { display: none; width: -1.5e-3px; x: 10% }",
        "px pxx inf +inf -inf 1e5 .5 5. -a _b a-1",
        "a \"quoted text\" b \"\" c",
        "",
    ];
    for text in texts {
        let first = tokens(text);
        assert_eq!(lex(print_tokens(&first)), Ok(first), "{}", text);
    }
}

#[test]
fn a_rule_prints_as_its_tokens() {
    let sheet = parse_stylesheet("div#main.big>p,a{width:10px;display:block}".to_string()).unwrap();
    assert_eq!(
        print_rule(&sheet.rules[0]),
        "div # main . big > p , a { width : 10 px ; display : block } "
    );
}

#[test]
fn printed_rules_parse_back() {
    let sheets = [
        "div { width: 10px; }",
        "a > b { }",
        "a b > c ~ d + e, f { display: none; width: 1.5e3px; display: block }",
        "div#main.big.red.big p#x.y, .c { bogus: ; width: 5px; }",
        "*, *.c, *#i.c a, * > a, * :hover a { }",
        "> a, 1 a, ~ a b, + .c d { }",
        "#x, #x a, #x > a, .c.d#e f { display: inline }",
        "a, , b { }",
        "{ }",
        "a::before:hover b { width: +0px; width: 1E2px; width: .5px }",
        "a { width: 1px } b { width: 2px } c { }",
        "a { width: 1px",
        "-a _b-c { display: -x }",
    ];
    for sheet in sheets {
        for rule in parse_stylesheet(sheet.to_string()).unwrap().rules {
            let printed = print_rule(&rule);
            assert_eq!(
                parse_stylesheet(printed),
                Ok(Stylesheet { rules: vec![rule] }),
                "{}",
                sheet
            );
        }
    }
}
