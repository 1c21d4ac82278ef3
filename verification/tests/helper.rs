use webparse::helper::{
    char_is_space, chars_of, pre_lex, slice_of, split_on, Error, ErrorKind, PreLexed,
};

fn rest(s: &str) -> PreLexed {
    PreLexed::Rest(s.to_string())
}

fn quoted(s: &str) -> PreLexed {
    PreLexed::String(s.to_string())
}

#[test]
fn it_works() {
    assert_eq!(2 + 2, 4);
}

#[test]
fn pre_lex_splits_at_quotes() {
    let spans = pre_lex("a \"b c\" d".to_string()).unwrap();
    assert_eq!(spans, vec![rest("a "), quoted("b c"), rest(" d")]);
}

#[test]
fn pre_lex_of_empty_text_is_one_empty_span() {
    assert_eq!(pre_lex(String::new()).unwrap(), vec![rest("")]);
}

#[test]
fn pre_lex_without_quotes_is_one_span() {
    assert_eq!(pre_lex("div { }".to_string()).unwrap(), vec![rest("div { }")]);
}

#[test]
fn pre_lex_keeps_empty_literals_and_gaps() {
    let spans = pre_lex("\"\"\"x\"".to_string()).unwrap();
    assert_eq!(spans, vec![rest(""), quoted(""), rest(""), quoted("x"), rest("")]);
}

#[test]
fn pre_lex_unterminated_quote_is_not_an_error() {
    let spans = pre_lex("a \"b".to_string()).unwrap();
    assert_eq!(spans, vec![rest("a "), rest("b")]);
}

#[test]
fn pre_lex_alternates_and_ends_unquoted() {
    let spans = pre_lex("1\"2\"3\"4\"5\"6".to_string()).unwrap();
    assert_eq!(
        spans,
        vec![rest("1"), quoted("2"), rest("3"), quoted("4"), rest("5"), rest("6")]
    );
}

#[test]
fn pre_lex_counts_characters_not_bytes() {
    let spans = pre_lex("é\"ü\"ß".to_string()).unwrap();
    assert_eq!(spans, vec![rest("é"), quoted("ü"), rest("ß")]);
}

#[test]
fn split_on_cuts_at_every_separator() {
    assert_eq!(split_on("a b  c", ' '), vec!["a", "b", "", "c"]);
    assert_eq!(split_on("", ' '), vec![""]);
    assert_eq!(split_on(" ", ' '), vec!["", ""]);
}

#[test]
fn chars_and_slices_go_by_characters() {
    assert_eq!(chars_of("aé"), vec!['a', 'é']);
    assert_eq!(slice_of("aéb", 1, 3), "éb");
    assert_eq!(slice_of("abc", 1, 1), "");
}

#[test]
fn white_space_is_what_std_trims() {
    let mut n: u32 = 0;
    while n < 0x3100 {
        if let Some(c) = char::from_u32(n) {
            assert_eq!(char_is_space(c), c.is_whitespace(), "{:x}", n);
        }
        n += 1;
    }
    assert!(!char_is_space('\u{feff}'));
    assert!(!char_is_space('\u{200b}'));
}

#[test]
fn errors_compare_by_kind() {
    assert_eq!(Error(ErrorKind::WrongEquals), Error(ErrorKind::WrongEquals));
    assert_ne!(Error(ErrorKind::WrongEquals), Error(ErrorKind::NodeIsContent));
}

#[test]
fn pieces_joined_are_the_text_again() {
    for text in ["", "a", "a b", " a  b ", "   ", "é é"] {
        let parts = split_on(text, ' ');
        assert_eq!(parts.join(" "), text);
        assert!(parts.iter().all(|part| !part.contains(' ')));
        assert_eq!(parts.len(), text.matches(' ').count() + 1);
    }
}
