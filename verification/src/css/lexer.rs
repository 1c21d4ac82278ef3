//! The stylesheet lexer: from text to symbols, identifiers and numbers.

use crate::helper::{
    chars_of, is_space, lift, pre_lex, slice_of, spans_of, Error, PreLexed, SpecErrorKind,
};
use crate::tokenizer::{
    find_symbol, lemma_lookup_finds, lemma_lookup_found, lex_spans, lookup, table_view,
    tokenize_with, Grammar, Lexicon,
};
use vstd::prelude::*;

verus! {

/// A symbol of a stylesheet.
#[derive(Debug, Clone, Copy, PartialEq, Eq, Structural)]
pub enum Token {
    /// `>`
    GT,
    /// `{`
    BraceOpen,
    /// `}`
    BraceClose,
    /// `,`
    Comma,
    /// `.`
    Dot,
    /// `(`
    ParOpen,
    /// `)`
    ParClose,
    /// `;`
    SemiColon,
    /// `:`
    Colon,
    /// `::`
    DoubleColon,
    /// `#`
    Hash,
    /// `*`
    Star,
    /// `~`
    Tilde,
    /// `+`
    Plus,
    /// The marker of a colour in red, green and blue.
    RGB,
    /// `px`
    Px,
    /// `%`
    Percent,
}

/// `c` is a decimal digit.
pub open spec fn is_digit(c: char) -> bool {
    '0' <= c <= '9'
}

/// `c` is a letter of the Latin alphabet.
pub open spec fn is_letter(c: char) -> bool {
    'a' <= c <= 'z' || 'A' <= c <= 'Z'
}

/// `text` is an identifier: letters, digits, `_` and `-`, at least one
/// letter among them, and no digit in front.
pub open spec fn is_identifier(text: Seq<char>) -> bool {
    &&& text.len() > 0
    &&& !is_digit(text[0])
    &&& forall|i: int|
        0 <= i < text.len() ==> is_letter(#[trigger] text[i]) || is_digit(text[i]) || text[i] == '_'
            || text[i] == '-'
    &&& exists|i: int| 0 <= i < text.len() && is_letter(#[trigger] text[i])
}

/// The end of the run of digits that starts at `from`.
pub open spec fn digits_end(text: Seq<char>, from: int) -> int
    decreases text.len() - from,
{
    if 0 <= from < text.len() && is_digit(text[from]) {
        digits_end(text, from + 1)
    } else {
        from
    }
}

/// The letter `c` in lower case; any other character as it is.
pub open spec fn lower(c: char) -> char {
    if 'A' <= c <= 'Z' {
        ((c as u8) + 32) as char
    } else {
        c
    }
}

/// `text` is `word`, but for the case of its letters. `word` is in lower
/// case.
pub open spec fn is_word(text: Seq<char>, word: Seq<char>) -> bool {
    &&& text.len() == word.len()
    &&& forall|i: int| 0 <= i < text.len() ==> lower(#[trigger] text[i]) == word[i]
}

/// `text` is a decimal number without a sign: digits with at most one
/// point among them, at least one digit, and after them, if anything, an
/// exponent: `e` or `E`, a sign or none, and at least one digit.
pub open spec fn is_decimal(text: Seq<char>) -> bool {
    let whole = digits_end(text, 0);
    let point = whole < text.len() && text[whole] == '.';
    let mantissa = if point {
        digits_end(text, whole + 1)
    } else {
        whole
    };
    let digits = if point {
        mantissa - 1
    } else {
        mantissa
    };
    &&& digits >= 1
    &&& mantissa == text.len() || {
        let signed = mantissa + 1 < text.len() && (text[mantissa + 1] == '+' || text[mantissa + 1]
            == '-');
        let exponent = if signed {
            mantissa + 2
        } else {
            mantissa + 1
        };
        &&& text[mantissa] == 'e' || text[mantissa] == 'E'
        &&& exponent < text.len()
        &&& digits_end(text, exponent) == text.len()
    }
}

/// `text` without the sign in front of it, if it has one.
pub open spec fn unsigned(text: Seq<char>) -> Seq<char> {
    if text.len() > 0 && (text[0] == '+' || text[0] == '-') {
        text.skip(1)
    } else {
        text
    }
}

/// `text` is a number literal: a sign or none, and then a decimal number
/// or one of the words `inf`, `infinity` and `nan` in any case.
pub open spec fn is_number(text: Seq<char>) -> bool {
    let body = unsigned(text);
    ||| is_decimal(body)
    ||| is_word(body, seq!['i', 'n', 'f'])
    ||| is_word(body, seq!['i', 'n', 'f', 'i', 'n', 'i', 't', 'y'])
    ||| is_word(body, seq!['n', 'a', 'n'])
}

/// A number of a stylesheet, held as the literal that spelled it.
#[derive(Debug, PartialEq, Eq)]
pub struct StyleNumber {
    literal: String,
}

impl View for StyleNumber {
    type V = Seq<char>;

    closed spec fn view(&self) -> Seq<char> {
        self.literal@
    }
}

impl DeepView for StyleNumber {
    type V = Seq<char>;

    open spec fn deep_view(&self) -> Seq<char> {
        self@
    }
}

impl Clone for StyleNumber {
    fn clone(&self) -> (res: Self)
        ensures
            res@ == self@,
    {
        proof {
            use_type_invariant(self);
        }
        StyleNumber { literal: self.literal.clone() }
    }
}

/// Decides [`is_digit`].
pub fn char_is_digit(c: char) -> (b: bool)
    ensures
        b == is_digit(c),
{
    '0' <= c && c <= '9'
}

/// Decides [`is_letter`].
pub fn char_is_letter(c: char) -> (b: bool)
    ensures
        b == is_letter(c),
{
    ('a' <= c && c <= 'z') || ('A' <= c && c <= 'Z')
}

/// Decides [`is_identifier`] on the characters `lo..hi` of `chars`.
pub fn reads_identifier(chars: &Vec<char>, lo: usize, hi: usize) -> (b: bool)
    requires
        lo <= hi <= chars.len(),
    ensures
        b == is_identifier(chars@.subrange(lo as int, hi as int)),
{
    let ghost text = chars@.subrange(lo as int, hi as int);
    if lo == hi || char_is_digit(chars[lo]) {
        return false;
    }
    let mut letter = false;
    let mut k: usize = lo;
    while k < hi
        invariant
            lo <= k <= hi <= chars.len(),
            text == chars@.subrange(lo as int, hi as int),
            forall|i: int|
                0 <= i < k - lo ==> is_letter(#[trigger] text[i]) || is_digit(text[i]) || text[i]
                    == '_' || text[i] == '-',
            letter == exists|i: int| 0 <= i < k - lo && is_letter(#[trigger] text[i]),
        decreases hi - k,
    {
        let c = chars[k];
        assert(text[k - lo] == c);
        if char_is_letter(c) {
            letter = true;
        } else if !(char_is_digit(c) || c == '_' || c == '-') {
            return false;
        }
        k += 1;
    }
    letter
}

/// The end of the run of digits that starts at `from`, within `lo..hi`.
fn skip_digits(chars: &Vec<char>, lo: usize, hi: usize, from: usize) -> (end: usize)
    requires
        lo <= from <= hi <= chars.len(),
    ensures
        from <= end <= hi,
        end - lo == digits_end(chars@.subrange(lo as int, hi as int), from - lo),
{
    let ghost text = chars@.subrange(lo as int, hi as int);
    let mut k: usize = from;
    while k < hi && char_is_digit(chars[k])
        invariant
            lo <= from <= k <= hi <= chars.len(),
            text == chars@.subrange(lo as int, hi as int),
            digits_end(text, from - lo) == digits_end(text, k - lo),
        decreases hi - k,
    {
        assert(text[k - lo] == chars[k as int]);
        k += 1;
    }
    proof {
        if k < hi {
            assert(text[k - lo] == chars[k as int]);
        }
    }
    k
}

/// Decides [`is_decimal`] on the characters `lo..hi` of `chars`.
fn reads_decimal(chars: &Vec<char>, lo: usize, hi: usize) -> (b: bool)
    requires
        lo <= hi <= chars.len(),
    ensures
        b == is_decimal(chars@.subrange(lo as int, hi as int)),
{
    let ghost text = chars@.subrange(lo as int, hi as int);
    let whole = skip_digits(chars, lo, hi, lo);
    let point = whole < hi && chars[whole] == '.';
    proof {
        if whole < hi {
            assert(text[whole - lo] == chars[whole as int]);
        }
    }
    let mantissa = if point {
        skip_digits(chars, lo, hi, whole + 1)
    } else {
        whole
    };
    let digits = if point {
        mantissa - lo - 1
    } else {
        mantissa - lo
    };
    if digits < 1 {
        return false;
    }
    if mantissa == hi {
        return true;
    }
    assert(text[mantissa - lo] == chars[mantissa as int]);
    if !(chars[mantissa] == 'e' || chars[mantissa] == 'E') {
        return false;
    }
    let signed = mantissa + 1 < hi && (chars[mantissa + 1] == '+' || chars[mantissa + 1] == '-');
    proof {
        if mantissa + 1 < hi {
            assert(text[mantissa + 1 - lo] == chars[mantissa + 1]);
        }
    }
    let exponent = if signed {
        mantissa + 2
    } else {
        mantissa + 1
    };
    if exponent >= hi {
        return false;
    }
    skip_digits(chars, lo, hi, exponent) == hi
}

/// The letter `c` in lower case; any other character as it is.
fn to_lower(c: char) -> (r: char)
    ensures
        r == lower(c),
{
    if 'A' <= c && c <= 'Z' {
        ((c as u8) + 32) as char
    } else {
        c
    }
}

/// Decides [`is_word`] on the characters `lo..hi` of `chars`.
fn reads_word(chars: &Vec<char>, lo: usize, hi: usize, word: &str) -> (b: bool)
    requires
        lo <= hi <= chars.len(),
    ensures
        b == is_word(chars@.subrange(lo as int, hi as int), word@),
{
    let ghost text = chars@.subrange(lo as int, hi as int);
    let n = word.unicode_len();
    if n != hi - lo {
        return false;
    }
    let mut k: usize = 0;
    while k < n
        invariant
            n == hi - lo,
            n == word@.len(),
            lo <= hi <= chars.len(),
            0 <= k <= n,
            text == chars@.subrange(lo as int, hi as int),
            forall|i: int| 0 <= i < k ==> lower(#[trigger] text[i]) == word@[i],
        decreases n - k,
    {
        assert(text[k as int] == chars[lo + k]);
        if to_lower(chars[lo + k]) != word.get_char(k) {
            return false;
        }
        k += 1;
    }
    true
}

/// Decides [`is_number`] on the characters `lo..hi` of `chars`.
pub fn reads_number(chars: &Vec<char>, lo: usize, hi: usize) -> (b: bool)
    requires
        lo <= hi <= chars.len(),
    ensures
        b == is_number(chars@.subrange(lo as int, hi as int)),
{
    let ghost text = chars@.subrange(lo as int, hi as int);
    let from = if lo < hi && (chars[lo] == '+' || chars[lo] == '-') {
        lo + 1
    } else {
        lo
    };
    proof {
        if lo < hi {
            assert(text[0] == chars[lo as int]);
        }
        assert(unsigned(text) =~= chars@.subrange(from as int, hi as int));
        reveal_strlit("inf");
        reveal_strlit("infinity");
        reveal_strlit("nan");
        assert("inf"@ =~= seq!['i', 'n', 'f']);
        assert("infinity"@ =~= seq!['i', 'n', 'f', 'i', 'n', 'i', 't', 'y']);
        assert("nan"@ =~= seq!['n', 'a', 'n']);
    }
    reads_decimal(chars, from, hi) || reads_word(chars, from, hi, "inf") || reads_word(
        chars,
        from,
        hi,
        "infinity",
    ) || reads_word(chars, from, hi, "nan")
}

impl StyleNumber {
    /// The literal is a number literal.
    #[verifier::type_invariant]
    spec fn spells_a_number(self) -> bool {
        is_number(self.literal@)
    }

    /// The number that `text` spells, if it spells one.
    pub fn parse(text: &str) -> (r: Option<Self>)
        ensures
            r is Some == is_number(text@),
            r is Some ==> r->Some_0@ == text@,
    {
        let chars = chars_of(text);
        assert(chars@.subrange(0, chars.len() as int) =~= text@);
        if reads_number(&chars, 0, chars.len()) {
            Some(StyleNumber { literal: text.to_owned() })
        } else {
            None
        }
    }

    /// The number `0`.
    pub fn zero() -> (r: Self)
        ensures
            r@ == "0"@,
    {
        proof {
            reveal_strlit("0");
            let text = "0"@;
            assert(unsigned(text) == text);
            assert(digits_end(text, 1) == 1);
            assert(digits_end(text, 0) == 1);
            assert(is_decimal(text));
        }
        StyleNumber { literal: "0".to_owned() }
    }

    /// The literal that spelled the number.
    pub fn as_str(&self) -> (r: &str)
        ensures
            r@ == self@,
            is_number(r@),
    {
        proof {
            use_type_invariant(self);
        }
        self.literal.as_str()
    }
}

/// The model of a [`Lexed`].
pub enum SpecLexed {
    Identifier(Seq<char>),
    Number(Seq<char>),
    String(Seq<char>),
    Token(Token),
}

/// A lexical item of a stylesheet: an identifier, a number, a quoted
/// literal, or a symbol.
#[derive(Debug, PartialEq, Eq)]
pub enum Lexed {
    Identifier(String),
    Number(StyleNumber),
    String(String),
    Token(Token),
}

impl DeepView for Lexed {
    type V = SpecLexed;

    open spec fn deep_view(&self) -> SpecLexed {
        match self {
            Lexed::Identifier(s) => SpecLexed::Identifier(s@),
            Lexed::Number(n) => SpecLexed::Number(n@),
            Lexed::String(s) => SpecLexed::String(s@),
            Lexed::Token(t) => SpecLexed::Token(*t),
        }
    }
}

impl Clone for Lexed {
    fn clone(&self) -> (res: Self)
        ensures
            res.deep_view() == self.deep_view(),
    {
        match self {
            Lexed::Identifier(s) => Lexed::Identifier(s.clone()),
            Lexed::Number(n) => Lexed::Number(n.clone()),
            Lexed::String(s) => Lexed::String(s.clone()),
            Lexed::Token(t) => Lexed::Token(*t),
        }
    }
}

/// The symbols that the tokenizer knows.
pub open spec fn symbols() -> Seq<(Seq<char>, Token)> {
    seq![
        (">"@, Token::GT),
        ("{"@, Token::BraceOpen),
        ("}"@, Token::BraceClose),
        (":"@, Token::Colon),
        ("::"@, Token::DoubleColon),
        (";"@, Token::SemiColon),
        ("#"@, Token::Hash),
        (","@, Token::Comma),
        ("."@, Token::Dot),
        ("*"@, Token::Star),
        ("~"@, Token::Tilde),
        ("+"@, Token::Plus),
        ("px"@, Token::Px),
        ("%"@, Token::Percent),
    ]
}

/// The symbol table of the tokenizer.
pub fn get_tokens() -> (table: Vec<(&'static str, Token)>)
    ensures
        table_view(table@) == symbols(),
{
    let mut table: Vec<(&'static str, Token)> = Vec::new();
    table.push((">", Token::GT));
    table.push(("{", Token::BraceOpen));
    table.push(("}", Token::BraceClose));
    table.push((":", Token::Colon));
    table.push(("::", Token::DoubleColon));
    table.push((";", Token::SemiColon));
    table.push(("#", Token::Hash));
    table.push((",", Token::Comma));
    table.push((".", Token::Dot));
    table.push(("*", Token::Star));
    table.push(("~", Token::Tilde));
    table.push(("+", Token::Plus));
    table.push(("px", Token::Px));
    table.push(("%", Token::Percent));
    assert(table_view(table@) =~= symbols());
    table
}

/// How a symbol is spelled. Three symbols have no spelling: the
/// tokenizer knows none for them.
pub open spec fn spelling(token: Token) -> Option<Seq<char>> {
    match token {
        Token::GT => Some(">"@),
        Token::BraceOpen => Some("{"@),
        Token::BraceClose => Some("}"@),
        Token::Colon => Some(":"@),
        Token::DoubleColon => Some("::"@),
        Token::SemiColon => Some(";"@),
        Token::Hash => Some("#"@),
        Token::Comma => Some(","@),
        Token::Dot => Some("."@),
        Token::Star => Some("*"@),
        Token::Tilde => Some("~"@),
        Token::Plus => Some("+"@),
        Token::Px => Some("px"@),
        Token::Percent => Some("%"@),
        Token::ParOpen | Token::ParClose | Token::RGB => None,
    }
}

/// The spelling of a symbol.
pub fn symbol_text(token: Token) -> (r: Option<&'static str>)
    ensures
        match r {
            Some(text) => spelling(token) == Some(text@),
            None => spelling(token) is None,
        },
{
    match token {
        Token::GT => Some(">"),
        Token::BraceOpen => Some("{"),
        Token::BraceClose => Some("}"),
        Token::Colon => Some(":"),
        Token::DoubleColon => Some("::"),
        Token::SemiColon => Some(";"),
        Token::Hash => Some("#"),
        Token::Comma => Some(","),
        Token::Dot => Some("."),
        Token::Star => Some("*"),
        Token::Tilde => Some("~"),
        Token::Plus => Some("+"),
        Token::Px => Some("px"),
        Token::Percent => Some("%"),
        Token::ParOpen | Token::ParClose | Token::RGB => None,
    }
}

/// The characters of the spellings of the symbol table.
pub proof fn lemma_spellings()
    ensures
        ">"@ == seq!['>'],
        "{"@ == seq!['{'],
        "}"@ == seq!['}'],
        ":"@ == seq![':'],
        "::"@ == seq![':', ':'],
        ";"@ == seq![';'],
        "#"@ == seq!['#'],
        ","@ == seq![','],
        "."@ == seq!['.'],
        "*"@ == seq!['*'],
        "~"@ == seq!['~'],
        "+"@ == seq!['+'],
        "px"@ == seq!['p', 'x'],
        "%"@ == seq!['%'],
{
    reveal_strlit(">");
    reveal_strlit("{");
    reveal_strlit("}");
    reveal_strlit(":");
    reveal_strlit("::");
    reveal_strlit(";");
    reveal_strlit("#");
    reveal_strlit(",");
    reveal_strlit(".");
    reveal_strlit("*");
    reveal_strlit("~");
    reveal_strlit("+");
    reveal_strlit("px");
    reveal_strlit("%");
    assert(">"@ =~= seq!['>']);
    assert("{"@ =~= seq!['{']);
    assert("}"@ =~= seq!['}']);
    assert(":"@ =~= seq![':']);
    assert("::"@ =~= seq![':', ':']);
    assert(";"@ =~= seq![';']);
    assert("#"@ =~= seq!['#']);
    assert(","@ =~= seq![',']);
    assert("."@ =~= seq!['.']);
    assert("*"@ =~= seq!['*']);
    assert("~"@ =~= seq!['~']);
    assert("+"@ =~= seq!['+']);
    assert("px"@ =~= seq!['p', 'x']);
    assert("%"@ =~= seq!['%']);
}

/// A text that the symbol table knows is the spelling of its symbol.
pub proof fn lemma_symbol_is_spelled(text: Seq<char>)
    requires
        lookup(symbols(), text) is Some,
    ensures
        spelling(lookup(symbols(), text)->Some_0) == Some(text),
{
    let table = symbols();
    lemma_lookup_found(table, text);
    let i = choose|i: int|
        0 <= i < table.len() && #[trigger] table[i] == (text, lookup(table, text)->Some_0);
    assert(table.len() == 14);
    if i == 0 {
    } else if i == 1 {
    } else if i == 2 {
    } else if i == 3 {
    } else if i == 4 {
    } else if i == 5 {
    } else if i == 6 {
    } else if i == 7 {
    } else if i == 8 {
    } else if i == 9 {
    } else if i == 10 {
    } else if i == 11 {
    } else if i == 12 {
    } else {
    }
}

/// The place of a symbol in the symbol table.
spec fn place(token: Token) -> int {
    match token {
        Token::GT => 0,
        Token::BraceOpen => 1,
        Token::BraceClose => 2,
        Token::Colon => 3,
        Token::DoubleColon => 4,
        Token::SemiColon => 5,
        Token::Hash => 6,
        Token::Comma => 7,
        Token::Dot => 8,
        Token::Star => 9,
        Token::Tilde => 10,
        Token::Plus => 11,
        Token::Px => 12,
        _ => 13,
    }
}

/// The spelling of a symbol is known to the symbol table as that symbol.
pub proof fn lemma_spelling_is_symbol(token: Token)
    requires
        spelling(token) is Some,
    ensures
        lookup(symbols(), spelling(token)->Some_0) == Some(token),
{
    let table = symbols();
    let i = place(token);
    lemma_spellings();
    assert(table.len() == 14);
    assert(table[i] == (spelling(token)->Some_0, token));
    assert forall|j: int| 0 <= j < i implies (#[trigger] table[j]).0 != table[i].0 by {
        let a = table[j].0;
        let b = table[i].0;
        if a.len() == b.len() {
            assert(a[0] != b[0]);
        }
    }
    lemma_lookup_finds(table, i);
}

/// The lexical grammar of stylesheets.
pub struct Css {
    pub table: Vec<(&'static str, Token)>,
}

impl Lexicon for Css {
    type Item = SpecLexed;

    /// A symbol goes before an identifier, and an identifier before a
    /// number.
    open spec fn item(text: Seq<char>) -> Option<SpecLexed> {
        match lookup(symbols(), text) {
            Some(token) => Some(SpecLexed::Token(token)),
            None => if is_identifier(text) {
                Some(SpecLexed::Identifier(text))
            } else if is_number(text) {
                Some(SpecLexed::Number(text))
            } else {
                None
            },
        }
    }

    open spec fn literal(text: Seq<char>) -> SpecLexed {
        SpecLexed::String(text)
    }
}

impl Grammar for Css {
    type Token = Lexed;

    open spec fn wf(&self) -> bool {
        table_view(self.table@) == symbols()
    }

    fn read(&self, text: &str, chars: &Vec<char>, lo: usize, hi: usize) -> (r: Option<Lexed>) {
        let ghost window = chars@.subrange(lo as int, hi as int);
        let symbol = find_symbol(&self.table, chars, lo, hi);
        assert(symbol == lookup(symbols(), window));
        match symbol {
            Some(token) => Some(Lexed::Token(token)),
            None => {
                if reads_identifier(chars, lo, hi) {
                    Some(Lexed::Identifier(slice_of(text, lo, hi)))
                } else if reads_number(chars, lo, hi) {
                    Some(Lexed::Number(StyleNumber { literal: slice_of(text, lo, hi) }))
                } else {
                    None
                }
            },
        }
    }

    fn quoted(&self, text: String) -> (r: Lexed) {
        Lexed::String(text)
    }
}

/// `c` can stand in a lexical item: it is no white space and no
/// quotation mark.
pub open spec fn is_solid(c: char) -> bool {
    !is_space(c) && c != '"'
}

/// A run of digits holds digits only, and ends in the text.
proof fn lemma_digits_run(text: Seq<char>, from: int)
    requires
        0 <= from <= text.len(),
    ensures
        from <= digits_end(text, from) <= text.len(),
        forall|i: int| from <= i < digits_end(text, from) ==> is_digit(#[trigger] text[i]),
    decreases text.len() - from,
{
    if from < text.len() && is_digit(text[from]) {
        lemma_digits_run(text, from + 1);
    }
}

/// A decimal number holds digits, a point, the mark of an exponent and
/// signs only.
proof fn lemma_decimal_is_solid(text: Seq<char>)
    requires
        is_decimal(text),
    ensures
        text.len() > 0,
        forall|i: int| 0 <= i < text.len() ==> is_solid(#[trigger] text[i]),
{
    let whole = digits_end(text, 0);
    lemma_digits_run(text, 0);
    let point = whole < text.len() && text[whole] == '.';
    let mantissa = if point {
        digits_end(text, whole + 1)
    } else {
        whole
    };
    if point {
        lemma_digits_run(text, whole + 1);
    }
    if mantissa < text.len() {
        let signed = mantissa + 1 < text.len() && (text[mantissa + 1] == '+' || text[mantissa + 1]
            == '-');
        let exponent = if signed {
            mantissa + 2
        } else {
            mantissa + 1
        };
        lemma_digits_run(text, exponent);
    }
}

/// A word holds letters only, in whatever case.
proof fn lemma_word_is_solid(text: Seq<char>, word: Seq<char>)
    requires
        is_word(text, word),
        forall|i: int| 0 <= i < word.len() ==> is_letter(#[trigger] word[i]),
    ensures
        forall|i: int| 0 <= i < text.len() ==> is_solid(#[trigger] text[i]),
{
    assert forall|i: int| 0 <= i < text.len() implies is_solid(#[trigger] text[i]) by {
        assert(lower(text[i]) == word[i]);
        assert(is_letter(word[i]));
    }
}

/// A lexical item holds no white space and no quotation mark, and is not
/// empty.
pub proof fn lemma_item_is_solid(text: Seq<char>)
    requires
        Css::item(text) is Some,
    ensures
        text.len() > 0,
        forall|i: int| 0 <= i < text.len() ==> is_solid(#[trigger] text[i]),
{
    if lookup(symbols(), text) is Some {
        lemma_symbol_is_spelled(text);
        lemma_spellings();
    } else if is_identifier(text) {
    } else {
        let body = unsigned(text);
        assert forall|i: int| 0 <= i < text.len() && (forall|k: int|
            0 <= k < body.len() ==> is_solid(#[trigger] body[k])) implies is_solid(
            #[trigger] text[i],
        ) by {
            if body.len() < text.len() {
                if i > 0 {
                    assert(text[i] == body[i - 1]);
                }
            }
        }
        if is_decimal(body) {
            lemma_decimal_is_solid(body);
        } else if is_word(body, seq!['i', 'n', 'f']) {
            lemma_word_is_solid(body, seq!['i', 'n', 'f']);
        } else if is_word(body, seq!['i', 'n', 'f', 'i', 'n', 'i', 't', 'y']) {
            lemma_word_is_solid(body, seq!['i', 'n', 'f', 'i', 'n', 'i', 't', 'y']);
        } else {
            lemma_word_is_solid(body, seq!['n', 'a', 'n']);
        }
    }
}

/// Turns the spans of a stylesheet into lexical items. At each place the
/// longest item wins, and white space around an item is dropped. Fails at
/// the first character, white space apart, at which no item starts.
pub fn tokenize(pre_lexed: Vec<PreLexed>) -> (res: Result<Vec<Lexed>, Error>)
    ensures
        lift(res) == lex_spans::<Css>(pre_lexed.deep_view()),
{
    let grammar = Css { table: get_tokens() };
    tokenize_with(&grammar, &pre_lexed)
}

/// The token stream of a stylesheet text.
pub open spec fn token_stream(text: Seq<char>) -> Result<Seq<SpecLexed>, SpecErrorKind> {
    lex_spans::<Css>(spans_of(text))
}

/// Reads a stylesheet text as a stream of lexical items.
pub fn lex(query: String) -> (res: Result<Vec<Lexed>, Error>)
    ensures
        lift(res) == token_stream(query@),
{
    let pre_lexed = match pre_lex(query) {
        Ok(spans) => spans,
        Err(e) => {
            return Err(e);
        },
    };
    tokenize(pre_lexed)
}

} // verus!
