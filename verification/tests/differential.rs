use webparse::css::lexer::{get_tokens, lex, Lexed, StyleNumber};
use webparse::dom::lexer as markup;
use webparse::helper::{pre_lex, Error, ErrorKind, PreLexed};

/// A small generator of repeatable pseudo-random numbers.
struct Dice(u64);

impl Dice {
    fn roll(&mut self, sides: usize) -> usize {
        self.0 = self.0.wrapping_mul(6364136223846793005).wrapping_add(1442695040888963407);
        ((self.0 >> 33) as usize) % sides
    }

    fn text(&mut self, alphabet: &[char], longest: usize) -> String {
        let n = self.roll(longest + 1);
        (0..n).map(|_| alphabet[self.roll(alphabet.len())]).collect()
    }
}

fn plain_pre_lex(text: &str) -> Vec<PreLexed> {
    let parts: Vec<&str> = text.split('"').collect();
    let n = parts.len();
    parts
        .into_iter()
        .enumerate()
        .map(|(i, part)| {
            if i % 2 == 1 && i + 1 < n {
                PreLexed::String(part.to_string())
            } else {
                PreLexed::Rest(part.to_string())
            }
        })
        .collect()
}

fn plain_is_identifier(text: &str) -> bool {
    let first = match text.chars().next() {
        Some(c) => c,
        None => return false,
    };
    !first.is_ascii_digit()
        && text.chars().all(|c| c.is_ascii_alphanumeric() || c == '_' || c == '-')
        && text.chars().any(|c| c.is_ascii_alphabetic())
}

/// The tokenizer written with what std offers: `trim`, and the parser of
/// floats for the numbers.
fn plain_lex(text: &str) -> Result<Vec<Lexed>, Error> {
    let table = get_tokens();
    let mut out = Vec::new();
    for span in plain_pre_lex(text) {
        let rest = match span {
            PreLexed::String(s) => {
                out.push(Lexed::String(s));
                continue;
            },
            PreLexed::Rest(s) => s,
        };
        let chars: Vec<char> = rest.chars().collect();
        let mut pos = 0;
        while pos < chars.len() {
            let mut found = None;
            let mut offset = chars.len();
            while offset > pos {
                let window: String = chars[pos..offset].iter().collect();
                let candidate = window.trim();
                if let Some(entry) = table.iter().find(|entry| entry.0 == candidate) {
                    found = Some(Lexed::Token(entry.1));
                } else if plain_is_identifier(candidate) {
                    found = Some(Lexed::Identifier(candidate.to_string()));
                } else if candidate.parse::<f32>().is_ok() {
                    found = Some(Lexed::Number(StyleNumber::parse(candidate).unwrap()));
                }
                if found.is_some() {
                    break;
                }
                offset -= 1;
            }
            match found {
                Some(token) => {
                    out.push(token);
                    pos = offset;
                },
                None => {
                    match (pos..chars.len()).find(|&i| !chars[i].is_whitespace()) {
                        Some(at) => {
                            return Err(Error(ErrorKind::UnrecognizedToken(
                                chars[at].to_string(),
                                at,
                            )));
                        },
                        None => break,
                    }
                },
            }
        }
    }
    Ok(out)
}

#[test]
fn pre_lex_agrees_with_split() {
    let mut dice = Dice(1);
    let alphabet = ['a', ' ', '"', '<', 'é', '\n'];
    for _ in 0..2000 {
        let text = dice.text(&alphabet, 12);
        assert_eq!(pre_lex(text.clone()).unwrap(), plain_pre_lex(&text), "{:?}", text);
    }
}

#[test]
fn stylesheet_lexer_agrees_with_the_plain_one() {
    let mut dice = Dice(2);
    let alphabet = [
        'a', 'p', 'x', 'e', 'E', 'i', 'n', 'f', '1', '0', '.', '+', '-', '_', ':', ';', '#', ',',
        '*', '~', '>', '{', '}', '%', ' ', ' ', '\n', '\t', '\u{a0}', '"', '$', 'é',
    ];
    for _ in 0..3000 {
        let text = dice.text(&alphabet, 10);
        assert_eq!(lex(text.clone()), plain_lex(&text), "{:?}", text);
    }
}

#[test]
fn number_grammar_agrees_with_the_parser_of_floats() {
    let mut dice = Dice(3);
    let alphabet = ['0', '1', '9', '.', 'e', 'E', '+', '-', 'i', 'n', 'f', 'N', 'a', 't', 'y', ' '];
    for _ in 0..20000 {
        let text = dice.text(&alphabet, 9);
        assert_eq!(
            StyleNumber::parse(&text).is_some(),
            text.parse::<f32>().is_ok(),
            "{:?}",
            text
        );
    }
    for text in ["infinity", "INFINITY", "+Infinity", "-infinitY", "nan", "-NaN", "inf", "1e10"] {
        assert!(StyleNumber::parse(text).is_some(), "{}", text);
    }
}

/// The markup tokenizer written with what std offers.
fn plain_markup(text: &str) -> Vec<markup::Lexed> {
    let mut out = Vec::new();
    for span in plain_pre_lex(text) {
        let rest = match span {
            PreLexed::String(s) => {
                out.push(markup::Lexed::String(s));
                continue;
            },
            PreLexed::Rest(s) => s,
        };
        let mut run = String::new();
        for c in rest.chars() {
            let symbol = match c {
                '<' => Some(markup::Token::LT),
                '>' => Some(markup::Token::GT),
                '=' => Some(markup::Token::Equals),
                '/' => Some(markup::Token::Slash),
                _ => None,
            };
            match symbol {
                Some(token) => {
                    if !run.trim().is_empty() {
                        out.push(markup::Lexed::Content(run.trim().to_string()));
                    }
                    run.clear();
                    out.push(markup::Lexed::Token(token));
                },
                None => run.push(c),
            }
        }
        if !run.trim().is_empty() {
            out.push(markup::Lexed::Content(run.trim().to_string()));
        }
    }
    out
}

#[test]
fn markup_lexer_cuts_at_symbols_and_trims() {
    let mut dice = Dice(4);
    let alphabet = ['a', 'b', ' ', ' ', '\n', '<', '>', '=', '/', '"', 'é', '\u{3000}'];
    for _ in 0..3000 {
        let text = dice.text(&alphabet, 12);
        let spans = pre_lex(text.clone()).unwrap();
        assert_eq!(markup::tokenize(spans), Ok(plain_markup(&text)), "{:?}", text);
    }
}
