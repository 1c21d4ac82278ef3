use webparse::css::lexer as css;
use webparse::dom::lexer as dom;
use webparse::helper::{drop_space, skip_space, Error, ErrorKind, PreLexed};
use webparse::tokenizer::{find_symbol, next_window, scan_span, spells, tokenize_with};

fn chars(s: &str) -> Vec<char> {
    s.chars().collect()
}

#[test]
fn skip_and_drop_space_trim_a_window() {
    let c = chars("  ab \t");
    assert_eq!(skip_space(&c, 0, 6), 2);
    assert_eq!(drop_space(&c, 2, 6), 4);
    assert_eq!(skip_space(&c, 0, 1), 1);
    assert_eq!(skip_space(&c, 4, 6), 6);
    assert_eq!(drop_space(&c, 4, 6), 4);
    assert_eq!(skip_space(&c, 2, 4), 2);
    assert_eq!(drop_space(&c, 0, 4), 4);
    assert_eq!(skip_space(&c, 3, 3), 3);
    assert_eq!(drop_space(&c, 3, 3), 3);
}

#[test]
fn trimming_takes_every_unicode_white_space() {
    let text = "\u{a0}\u{2003} a\u{3000}\u{85}\n";
    let c = chars(text);
    let lo = skip_space(&c, 0, c.len());
    let hi = drop_space(&c, lo, c.len());
    let trimmed: String = c[lo..hi].iter().collect();
    assert_eq!(trimmed, text.trim());
    assert_eq!(trimmed, "a");
}

#[test]
fn spells_compares_a_window_with_a_word() {
    let c = chars("a::b");
    assert!(spells(&c, 1, 3, "::"));
    assert!(spells(&c, 1, 2, ":"));
    assert!(!spells(&c, 1, 3, ":"));
    assert!(!spells(&c, 0, 2, "::"));
    assert!(spells(&c, 2, 2, ""));
    assert!(!spells(&c, 0, 4, "a::c"));
}

#[test]
fn find_symbol_looks_a_window_up() {
    let table = css::get_tokens();
    let c = chars("a::px;");
    assert_eq!(find_symbol(&table, &c, 1, 3), Some(css::Token::DoubleColon));
    assert_eq!(find_symbol(&table, &c, 1, 2), Some(css::Token::Colon));
    assert_eq!(find_symbol(&table, &c, 3, 5), Some(css::Token::Px));
    assert_eq!(find_symbol(&table, &c, 5, 6), Some(css::Token::SemiColon));
    assert_eq!(find_symbol(&table, &c, 0, 1), None);
    assert_eq!(find_symbol(&table, &c, 3, 4), None);
    assert_eq!(find_symbol(&table, &c, 2, 2), None);
    let none: Vec<(&'static str, css::Token)> = Vec::new();
    assert_eq!(find_symbol(&none, &c, 1, 3), None);
}

#[test]
fn next_window_is_the_longest_that_spells_an_item() {
    let grammar = css::Css { table: css::get_tokens() };
    let text = "ab cd";
    let c = chars(text);
    assert_eq!(
        next_window(&grammar, text, &c, 0),
        Some((3, css::Lexed::Identifier("ab".to_string())))
    );
    assert_eq!(
        next_window(&grammar, text, &c, 2),
        Some((5, css::Lexed::Identifier("cd".to_string())))
    );
    assert_eq!(next_window(&grammar, text, &c, 5), None);
    let text = "a $";
    let c = chars(text);
    assert_eq!(
        next_window(&grammar, text, &c, 0),
        Some((2, css::Lexed::Identifier("a".to_string())))
    );
    assert_eq!(next_window(&grammar, text, &c, 2), None);
    let text = "   ";
    let c = chars(text);
    assert_eq!(next_window(&grammar, text, &c, 0), None);
}

#[test]
fn scan_span_appends_to_what_is_there() {
    let grammar = dom::Markup { table: dom::get_tokens() };
    let mut out = vec![dom::Lexed::String("q".to_string())];
    assert_eq!(scan_span(&grammar, "<a>", &mut out), Ok(()));
    assert_eq!(
        out,
        vec![
            dom::Lexed::String("q".to_string()),
            dom::Lexed::Token(dom::Token::LT),
            dom::Lexed::Content("a".to_string()),
            dom::Lexed::Token(dom::Token::GT),
        ]
    );
    let grammar = css::Css { table: css::get_tokens() };
    let mut out = Vec::new();
    assert_eq!(
        scan_span(&grammar, "a ?", &mut out),
        Err(Error(ErrorKind::UnrecognizedToken("?".to_string(), 2)))
    );
    let mut out = Vec::new();
    assert_eq!(scan_span(&grammar, "", &mut out), Ok(()));
    assert!(out.is_empty());
}

#[test]
fn tokenize_with_either_grammar() {
    let spans = vec![
        PreLexed::Rest("a = ".to_string()),
        PreLexed::String("b c".to_string()),
        PreLexed::Rest("".to_string()),
    ];
    let markup = dom::Markup { table: dom::get_tokens() };
    assert_eq!(
        tokenize_with(&markup, &spans),
        Ok(vec![
            dom::Lexed::Content("a".to_string()),
            dom::Lexed::Token(dom::Token::Equals),
            dom::Lexed::String("b c".to_string()),
        ])
    );
    let style = css::Css { table: css::get_tokens() };
    assert_eq!(
        tokenize_with(&style, &spans),
        Err(Error(ErrorKind::UnrecognizedToken("=".to_string(), 2)))
    );
    assert_eq!(tokenize_with(&style, &Vec::new()), Ok(Vec::new()));
}
