//! The markup lexer: from text to symbols, then to tags and the text
//! between them.

use crate::helper::{
    lemma_trim_lo, lemma_trim_lo_shorter, lift, pieces, pre_lex, slice_of, spans_of, split_on,
    trim_hi, trim_lo, window_text, Error, ErrorKind, PreLexed, Span, SpecErrorKind, TagFault,
};
use crate::tokenizer::{
    find_symbol, lemma_longest_at_least, lemma_longest_bounds, lex_spans, longest, lookup, scan,
    table_view, tokenize_with, Grammar, Lexicon,
};
use crate::{AttrMap, SpecAttrMap};
use vstd::prelude::*;

verus! {

/// A symbol of markup.
#[derive(Debug, Clone, Copy, PartialEq, Eq, Structural)]
pub enum Token {
    /// `<`
    LT,
    /// `>`
    GT,
    /// `=`
    Equals,
    /// `/`
    Slash,
    /// `</`
    CloseTag,
    /// `/>`
    SelfClose,
}

/// The model of a [`Lexed`].
pub enum SpecLexed {
    Content(Seq<char>),
    String(Seq<char>),
    Token(Token),
}

/// A lexical item of markup: a run of text that holds no symbol, a quoted
/// literal, or a symbol.
#[derive(Debug, PartialEq, Eq)]
pub enum Lexed {
    Content(String),
    String(String),
    Token(Token),
}

impl DeepView for Lexed {
    type V = SpecLexed;

    open spec fn deep_view(&self) -> SpecLexed {
        match self {
            Lexed::Content(s) => SpecLexed::Content(s@),
            Lexed::String(s) => SpecLexed::String(s@),
            Lexed::Token(t) => SpecLexed::Token(*t),
        }
    }
}

impl Clone for Lexed {
    fn clone(&self) -> (res: Self)
        ensures
            res == *self,
    {
        match self {
            Lexed::Content(s) => Lexed::Content(s.clone()),
            Lexed::String(s) => Lexed::String(s.clone()),
            Lexed::Token(t) => Lexed::Token(*t),
        }
    }
}

/// The symbols that the tokenizer knows, each one character long.
pub open spec fn symbols() -> Seq<(Seq<char>, Token)> {
    seq![("<"@, Token::LT), (">"@, Token::GT), ("="@, Token::Equals), ("/"@, Token::Slash)]
}

/// The symbol table of the tokenizer.
pub fn get_tokens() -> (table: Vec<(&'static str, Token)>)
    ensures
        table_view(table@) == symbols(),
{
    let mut table: Vec<(&'static str, Token)> = Vec::new();
    table.push(("<", Token::LT));
    table.push((">", Token::GT));
    table.push(("=", Token::Equals));
    table.push(("/", Token::Slash));
    assert(table_view(table@) =~= symbols());
    table
}

/// `text` is not empty and none of its characters is a symbol.
pub open spec fn is_content(text: Seq<char>) -> bool {
    &&& text.len() > 0
    &&& forall|i: int|
        0 <= i < text.len() ==> lookup(symbols(), #[trigger] text.subrange(i, i + 1)) is None
}

/// The lexical grammar of markup.
pub struct Markup {
    pub table: Vec<(&'static str, Token)>,
}

impl Lexicon for Markup {
    type Item = SpecLexed;

    open spec fn item(text: Seq<char>) -> Option<SpecLexed> {
        match lookup(symbols(), text) {
            Some(token) => Some(SpecLexed::Token(token)),
            None => if is_content(text) {
                Some(SpecLexed::Content(text))
            } else {
                None
            },
        }
    }

    open spec fn literal(text: Seq<char>) -> SpecLexed {
        SpecLexed::String(text)
    }
}

impl Grammar for Markup {
    type Token = Lexed;

    open spec fn wf(&self) -> bool {
        table_view(self.table@) == symbols()
    }

    fn read(&self, text: &str, chars: &Vec<char>, lo: usize, hi: usize) -> (r: Option<Lexed>) {
        let ghost window = chars@.subrange(lo as int, hi as int);
        let symbol = find_symbol(&self.table, chars, lo, hi);
        assert(symbol == lookup(symbols(), window));
        match symbol {
            Some(token) => Some(Lexed::Token(token)),
            None => {
                if lo == hi {
                    assert(!is_content(window));
                    return None;
                }
                let mut k: usize = lo;
                while k < hi
                    invariant
                        self.wf(),
                        lo <= k <= hi <= chars.len(),
                        window == chars@.subrange(lo as int, hi as int),
                        lookup(symbols(), window) is None,
                        forall|i: int|
                            0 <= i < k - lo ==> lookup(
                                symbols(),
                                #[trigger] window.subrange(i, i + 1),
                            ) is None,
                    decreases hi - k,
                {
                    assert(window.subrange(k - lo, k - lo + 1) =~= chars@.subrange(
                        k as int,
                        k + 1,
                    ));
                    if find_symbol(&self.table, chars, k, k + 1).is_some() {
                        assert(lookup(symbols(), window.subrange(k - lo, k - lo + 1)) is Some);
                        assert(!is_content(window));
                        return None;
                    }
                    k += 1;
                }
                assert(is_content(window));
                Some(Lexed::Content(slice_of(text, lo, hi)))
            },
        }
    }

    fn quoted(&self, text: String) -> (r: Lexed) {
        Lexed::String(text)
    }
}

/// Turns the spans of a markup text into lexical items. White space at the
/// two ends of an item is dropped, so a span of white space gives no item.
/// Markup has no text that is not an item: this never fails.
pub fn tokenize(pre_lexed: Vec<PreLexed>) -> (res: Result<Vec<Lexed>, Error>)
    ensures
        res is Ok,
        lift(res) == lex_spans::<Markup>(pre_lexed.deep_view()),
{
    let grammar = Markup { table: get_tokens() };
    proof {
        lemma_markup_total(pre_lexed.deep_view());
    }
    tokenize_with(&grammar, &pre_lexed)
}

/// Every span of markup can be scanned.
pub proof fn lemma_markup_scan_total(s: Seq<char>, pos: int)
    ensures
        scan::<Markup>(s, pos) is Ok,
    decreases s.len() - pos,
{
    if 0 <= pos < s.len() {
        let len = s.len() as int;
        let end = longest::<Markup>(s, pos, len);
        lemma_longest_bounds::<Markup>(s, pos, len);
        if end <= pos {
            let a = trim_lo(s, pos, len);
            lemma_trim_lo(s, pos, len);
            if a < len {
                lemma_trim_lo_shorter(s, pos, len, a + 1);
                assert(trim_hi(s, a, a + 1) == a + 1);
                let text = window_text(s, pos, a + 1);
                assert(text =~= s.subrange(a, a + 1));
                if lookup(symbols(), text) is None {
                    assert forall|i: int| 0 <= i < text.len() implies lookup(
                        symbols(),
                        #[trigger] text.subrange(i, i + 1),
                    ) is None by {
                        assert(text.subrange(0, 1) =~= text);
                    }
                }
                lemma_longest_at_least::<Markup>(s, pos, len, a + 1);
            }
        } else {
            lemma_markup_scan_total(s, end);
        }
    }
}

/// Every sequence of spans can be tokenized as markup.
pub proof fn lemma_markup_total(spans: Seq<Span>)
    ensures
        lex_spans::<Markup>(spans) is Ok,
    decreases spans.len(),
{
    if spans.len() > 0 {
        lemma_markup_total(spans.drop_last());
        match spans.last() {
            Span::Literal(text) => {},
            Span::Unquoted(text) => {
                lemma_markup_scan_total(text, 0);
            },
        }
    }
}

/// The two-character symbol that two adjacent symbols spell, if they do.
pub open spec fn merged(a: Token, b: Token) -> Option<Token> {
    match (a, b) {
        (Token::Slash, Token::GT) => Some(Token::SelfClose),
        (Token::LT, Token::Slash) => Some(Token::CloseTag),
        _ => None,
    }
}

/// The two-character symbol that the items at `i` and `i + 1` spell.
pub open spec fn pair_at(tokens: Seq<SpecLexed>, i: int) -> Option<Token> {
    if 0 <= i && i + 1 < tokens.len() {
        match (tokens[i], tokens[i + 1]) {
            (SpecLexed::Token(a), SpecLexed::Token(b)) => merged(a, b),
            _ => None,
        }
    } else {
        None
    }
}

/// The token stream with `/` `>` joined to `/>` and `<` `/` joined to `</`,
/// from left to right: a symbol that can close a pair does so before it
/// can open one.
pub open spec fn compressed(tokens: Seq<SpecLexed>) -> Seq<SpecLexed>
    decreases tokens.len(),
{
    if tokens.len() == 0 {
        Seq::empty()
    } else {
        match pair_at(tokens, 0) {
            Some(m) => seq![SpecLexed::Token(m)] + compressed(tokens.skip(2)),
            None => seq![tokens[0]] + compressed(tokens.skip(1)),
        }
    }
}

/// Decides [`merged`].
pub fn merge(a: Token, b: Token) -> (r: Option<Token>)
    ensures
        r == merged(a, b),
{
    match (a, b) {
        (Token::Slash, Token::GT) => Some(Token::SelfClose),
        (Token::LT, Token::Slash) => Some(Token::CloseTag),
        _ => None,
    }
}

/// Joins adjacent one-character symbols to the two-character symbols `/>`
/// and `</`. Never fails.
pub fn compress_tokens(tokenized: Vec<Lexed>) -> (res: Result<Vec<Lexed>, Error>)
    ensures
        res is Ok,
        res->Ok_0.deep_view() == compressed(tokenized.deep_view()),
{
    let ghost tokens = tokenized.deep_view();
    let n = tokenized.len();
    let mut result: Vec<Lexed> = Vec::new();
    let mut i: usize = 0;
    assert(tokens.skip(0) =~= tokens);
    assert(result.deep_view() + compressed(tokens) =~= compressed(tokens));
    while i < n
        invariant
            n == tokenized.len(),
            tokens == tokenized.deep_view(),
            0 <= i <= n,
            result.deep_view() + compressed(tokens.skip(i as int)) == compressed(tokens),
        decreases n - i,
    {
        let ghost rest = tokens.skip(i as int);
        let ghost done = result.deep_view();
        assert(rest[0] == tokenized[i as int].deep_view());
        let pair = if i + 1 < n {
            assert(rest[1] == tokenized[i + 1].deep_view());
            match (&tokenized[i], &tokenized[i + 1]) {
                (Lexed::Token(a), Lexed::Token(b)) => merge(*a, *b),
                _ => None,
            }
        } else {
            None
        };
        assert(pair == pair_at(rest, 0));
        match pair {
            Some(m) => {
                result.push(Lexed::Token(m));
                proof {
                    assert(rest.skip(2) =~= tokens.skip(i + 2));
                    assert(result.deep_view() =~= done.push(SpecLexed::Token(m)));
                    assert(done.push(SpecLexed::Token(m)) + compressed(tokens.skip(i + 2)) =~= done
                        + (seq![SpecLexed::Token(m)] + compressed(rest.skip(2))));
                }
                i += 2;
            },
            None => {
                result.push(tokenized[i].clone());
                proof {
                    assert(rest.skip(1) =~= tokens.skip(i + 1));
                    assert(result.deep_view() =~= done.push(rest[0]));
                    assert(done.push(rest[0]) + compressed(tokens.skip(i + 1)) =~= done + (
                    seq![rest[0]] + compressed(rest.skip(1))));
                }
                i += 1;
            },
        }
    }
    assert(result.deep_view() + compressed(tokens.skip(n as int)) =~= result.deep_view());
    Ok(result)
}

/// How a tag stands to its element: it opens it, closes it, or is the
/// whole of it.
#[derive(Debug, Clone, Copy, PartialEq, Eq, Structural)]
pub enum TagStatus {
    /// `<div>`
    Open,
    /// `</div>`
    Close,
    /// `<div />`
    SelfClose,
}

/// The model of a [`Tag`].
pub struct SpecTag {
    pub name: Seq<char>,
    pub attrs: SpecAttrMap,
    pub status: TagStatus,
}

/// A tag: its name, its attributes, and whether it opens or closes.
#[derive(Debug, PartialEq, Eq)]
pub struct Tag {
    pub name: String,
    pub attrs: AttrMap,
    pub status: TagStatus,
}

impl DeepView for Tag {
    type V = SpecTag;

    open spec fn deep_view(&self) -> SpecTag {
        SpecTag { name: self.name@, attrs: self.attrs@, status: self.status }
    }
}

/// The model of a [`TagContents`].
pub enum SpecTagContents {
    Tag(SpecTag),
    Content(Seq<char>),
}

/// An item of the flat tag stream: a tag, or the text before a tag.
#[derive(Debug, PartialEq, Eq)]
pub enum TagContents {
    Tag(Tag),
    Content(String),
}

impl DeepView for TagContents {
    type V = SpecTagContents;

    open spec fn deep_view(&self) -> SpecTagContents {
        match self {
            TagContents::Tag(tag) => SpecTagContents::Tag(tag.deep_view()),
            TagContents::Content(s) => SpecTagContents::Content(s@),
        }
    }
}

/// The model of an attribute as it was written: a name and the value it
/// was given, if any.
pub type SpecAttr = (Seq<char>, Option<Seq<char>>);

/// The model of a [`Builder`].
pub enum SpecBuilder {
    Outside { text: Seq<char> },
    InTag { name: Option<Seq<char>>, attrs: Seq<SpecAttr>, status: TagStatus, after_equals: bool },
}

/// The state of the tag builder: outside of a tag it gathers text; inside
/// of one it holds the name and the attributes read so far, how the tag
/// began, and whether `=` was seen and its value is still to come.
#[derive(Debug, PartialEq, Eq)]
pub enum Builder {
    Outside { text: String },
    InTag {
        name: Option<String>,
        attrs: Vec<(String, Option<String>)>,
        status: TagStatus,
        after_equals: bool,
    },
}

impl DeepView for Builder {
    type V = SpecBuilder;

    open spec fn deep_view(&self) -> SpecBuilder {
        match self {
            Builder::Outside { text } => SpecBuilder::Outside { text: text@ },
            Builder::InTag { name, attrs, status, after_equals } => SpecBuilder::InTag {
                name: name.deep_view(),
                attrs: attrs.deep_view(),
                status: *status,
                after_equals: *after_equals,
            },
        }
    }
}

/// The attributes without a value that the words name.
pub open spec fn bare(words: Seq<Seq<char>>) -> Seq<SpecAttr> {
    Seq::new(words.len(), |i: int| (words[i], None::<Seq<char>>))
}

/// The mapping that the attributes of a tag make: an attribute without a
/// name is left out, and a later attribute of a name takes the place of an
/// earlier one.
pub open spec fn attrs_map(attrs: Seq<SpecAttr>) -> SpecAttrMap
    decreases attrs.len(),
{
    if attrs.len() == 0 {
        Map::empty()
    } else {
        let before = attrs_map(attrs.drop_last());
        if attrs.last().0.len() > 0 {
            before.insert(attrs.last().0, attrs.last().1)
        } else {
            before
        }
    }
}

/// One transition of the tag builder: the next state, and the tag or the
/// text that the token completes, if it completes one.
pub open spec fn step(state: SpecBuilder, token: SpecLexed) -> Result<
    (SpecBuilder, Option<SpecTagContents>),
    SpecErrorKind,
> {
    match state {
        SpecBuilder::Outside { text } => match token {
            SpecLexed::String(s) => Ok((SpecBuilder::Outside { text: text + s }, None)),
            SpecLexed::Content(s) => Ok((SpecBuilder::Outside { text: text + s }, None)),
            SpecLexed::Token(t) => match t {
                Token::LT | Token::CloseTag => Ok(
                    (
                        SpecBuilder::InTag {
                            name: None,
                            attrs: Seq::empty(),
                            status: if t == Token::LT {
                                TagStatus::Open
                            } else {
                                TagStatus::Close
                            },
                            after_equals: false,
                        },
                        if text.len() > 0 {
                            Some(SpecTagContents::Content(text))
                        } else {
                            None
                        },
                    ),
                ),
                Token::GT | Token::SelfClose => Err(
                    SpecErrorKind::StructuralTag(TagFault::StrayClose),
                ),
                Token::Equals => Ok((SpecBuilder::Outside { text: text.push('=') }, None)),
                Token::Slash => Ok((SpecBuilder::Outside { text: text.push('/') }, None)),
            },
        },
        SpecBuilder::InTag { name, attrs, status, after_equals } => match token {
            SpecLexed::String(s) => if after_equals {
                if attrs.len() == 0 {
                    Err(SpecErrorKind::WrongEquals)
                } else {
                    Ok(
                        (
                            SpecBuilder::InTag {
                                name,
                                attrs: attrs.drop_last().push((attrs.last().0, Some(s))),
                                status,
                                after_equals: false,
                            },
                            None,
                        ),
                    )
                }
            } else {
                Ok((state, None))
            },
            SpecLexed::Content(s) => {
                let words = pieces(s, ' ');
                match name {
                    None => Ok(
                        (
                            SpecBuilder::InTag {
                                name: Some(words[0]),
                                attrs: attrs + bare(words.skip(1)),
                                status,
                                after_equals,
                            },
                            None,
                        ),
                    ),
                    Some(_) => Ok(
                        (
                            SpecBuilder::InTag {
                                name,
                                attrs: attrs + bare(words),
                                status,
                                after_equals,
                            },
                            None,
                        ),
                    ),
                }
            },
            SpecLexed::Token(t) => match t {
                Token::LT | Token::CloseTag => Err(
                    SpecErrorKind::StructuralTag(TagFault::NestedOpen),
                ),
                Token::GT | Token::SelfClose => match name {
                    None => Err(SpecErrorKind::StructuralTag(TagFault::NoName)),
                    Some(n) => if t == Token::SelfClose && status != TagStatus::Open {
                        Err(SpecErrorKind::StructuralTag(TagFault::SelfClosingClose))
                    } else {
                        Ok(
                            (
                                SpecBuilder::Outside { text: Seq::empty() },
                                Some(
                                    SpecTagContents::Tag(
                                        SpecTag {
                                            name: n,
                                            attrs: attrs_map(attrs),
                                            status: if t == Token::SelfClose {
                                                TagStatus::SelfClose
                                            } else {
                                                status
                                            },
                                        },
                                    ),
                                ),
                            ),
                        )
                    },
                },
                Token::Equals => Ok(
                    (SpecBuilder::InTag { name, attrs, status, after_equals: true }, None),
                ),
                Token::Slash => Err(SpecErrorKind::StructuralTag(TagFault::SlashInTag)),
            },
        },
    }
}

/// The state of the tag builder after `tokens`, with the tags and texts
/// completed so far. It begins outside of a tag, with no text.
pub open spec fn run(tokens: Seq<SpecLexed>) -> Result<
    (SpecBuilder, Seq<SpecTagContents>),
    SpecErrorKind,
>
    decreases tokens.len(),
{
    if tokens.len() == 0 {
        Ok((SpecBuilder::Outside { text: Seq::empty() }, Seq::empty()))
    } else {
        match run(tokens.drop_last()) {
            Err(e) => Err(e),
            Ok((state, tags)) => match step(state, tokens.last()) {
                Err(e) => Err(e),
                Ok((next, item)) => Ok(
                    (
                        next,
                        match item {
                            Some(t) => tags.push(t),
                            None => tags,
                        },
                    ),
                ),
            },
        }
    }
}

/// The flat tag stream of a token stream. Text after the last tag, and a
/// tag that the stream leaves open, give no item.
pub open spec fn tags_of(tokens: Seq<SpecLexed>) -> Result<Seq<SpecTagContents>, SpecErrorKind> {
    match run(tokens) {
        Ok((_, tags)) => Ok(tags),
        Err(e) => Err(e),
    }
}

/// A failure on a prefix of the tokens is the failure of the whole.
pub proof fn lemma_run_fails(tokens: Seq<SpecLexed>, n: int)
    requires
        0 <= n <= tokens.len(),
        run(tokens.take(n)) is Err,
    ensures
        run(tokens) == run(tokens.take(n)),
    decreases tokens.len() - n,
{
    if n < tokens.len() {
        assert(tokens.take(n + 1).drop_last() =~= tokens.take(n));
        lemma_run_fails(tokens, n + 1);
    } else {
        assert(tokens.take(n) =~= tokens);
    }
}

/// Appends the attributes without a value that `words` names, from the
/// word at `from` on.
fn push_bare(attrs: &mut Vec<(String, Option<String>)>, words: &Vec<String>, from: usize)
    requires
        from <= words.len(),
    ensures
        final(attrs).deep_view() == old(attrs).deep_view() + bare(
            words.deep_view().skip(from as int),
        ),
{
    let ghost before = attrs.deep_view();
    let ghost names = words.deep_view();
    let mut i: usize = from;
    assert(before + bare(names.skip(from as int).take(0)) =~= before);
    while i < words.len()
        invariant
            from <= i <= words.len(),
            names == words.deep_view(),
            attrs.deep_view() == before + bare(names.skip(from as int).take(i - from)),
        decreases words.len() - i,
    {
        let ghost prev = attrs.deep_view();
        attrs.push((words[i].clone(), None));
        proof {
            assert(attrs.deep_view() =~= prev.push((names[i as int], None::<Seq<char>>)));
            assert(prev.push((names[i as int], None::<Seq<char>>)) =~= before + bare(
                names.skip(from as int).take(i + 1 - from),
            ));
        }
        i += 1;
    }
    assert(names.skip(from as int).take(i - from) =~= names.skip(from as int));
}

/// Builds the attribute mapping of a tag.
fn collect_attrs(attrs: &Vec<(String, Option<String>)>) -> (m: AttrMap)
    ensures
        m@ == attrs_map(attrs.deep_view()),
{
    let ghost model = attrs.deep_view();
    let mut m = AttrMap::new();
    let mut i: usize = 0;
    assert(model.take(0) =~= Seq::<SpecAttr>::empty());
    while i < attrs.len()
        invariant
            0 <= i <= attrs.len(),
            model == attrs.deep_view(),
            m@ == attrs_map(model.take(i as int)),
        decreases attrs.len() - i,
    {
        proof {
            assert(model.take(i + 1).drop_last() =~= model.take(i as int));
            assert(model.take(i + 1).last() == attrs[i as int].deep_view());
        }
        if !attrs[i].0.as_str().is_empty() {
            let value = match &attrs[i].1 {
                Some(v) => Some(v.clone()),
                None => None,
            };
            m.insert(attrs[i].0.clone(), value);
        }
        i += 1;
    }
    assert(model.take(i as int) =~= model);
    m
}

/// One transition of the tag builder.
pub fn advance(state: Builder, token: Lexed) -> (res: Result<(Builder, Option<TagContents>), Error>)
    ensures
        lift(res) == step(state.deep_view(), token.deep_view()),
{
    match state {
        Builder::Outside { text } => {
            let mut text = text;
            match token {
                Lexed::String(s) => {
                    text.append(s.as_str());
                    Ok((Builder::Outside { text }, None))
                },
                Lexed::Content(s) => {
                    text.append(s.as_str());
                    Ok((Builder::Outside { text }, None))
                },
                Lexed::Token(t) => match t {
                    Token::LT | Token::CloseTag => {
                        let status = if t == Token::LT {
                            TagStatus::Open
                        } else {
                            TagStatus::Close
                        };
                        let item = if text.as_str().is_empty() {
                            None
                        } else {
                            Some(TagContents::Content(text))
                        };
                        let attrs: Vec<(String, Option<String>)> = Vec::new();
                        assert(attrs.deep_view() =~= Seq::<SpecAttr>::empty());
                        Ok(
                            (
                                Builder::InTag { name: None, attrs, status, after_equals: false },
                                item,
                            ),
                        )
                    },
                    Token::GT | Token::SelfClose => Err(
                        Error(ErrorKind::StructuralTag(TagFault::StrayClose)),
                    ),
                    Token::Equals => {
                        proof {
                            reveal_strlit("=");
                            assert(text@ + "="@ =~= text@.push('='));
                        }
                        text.append("=");
                        Ok((Builder::Outside { text }, None))
                    },
                    Token::Slash => {
                        proof {
                            reveal_strlit("/");
                            assert(text@ + "/"@ =~= text@.push('/'));
                        }
                        text.append("/");
                        Ok((Builder::Outside { text }, None))
                    },
                },
            }
        },
        Builder::InTag { name, attrs, status, after_equals } => {
            let mut attrs = attrs;
            let ghost before = attrs.deep_view();
            match token {
                Lexed::String(s) => {
                    if after_equals {
                        match attrs.pop() {
                            None => Err(Error(ErrorKind::WrongEquals)),
                            Some(last) => {
                                let ghost front = attrs.deep_view();
                                attrs.push((last.0, Some(s)));
                                proof {
                                    assert(front =~= before.drop_last());
                                    assert(attrs.deep_view() =~= before.drop_last().push(
                                        (before.last().0, Some(s@)),
                                    ));
                                }
                                Ok(
                                    (
                                        Builder::InTag { name, attrs, status, after_equals: false },
                                        None,
                                    ),
                                )
                            },
                        }
                    } else {
                        Ok((Builder::InTag { name, attrs, status, after_equals }, None))
                    }
                },
                Lexed::Content(s) => {
                    let words = split_on(s.as_str(), ' ');
                    match name {
                        None => {
                            assert(words.deep_view()[0] == words[0]@);
                            let first = words[0].clone();
                            push_bare(&mut attrs, &words, 1);
                            Ok(
                                (
                                    Builder::InTag {
                                        name: Some(first),
                                        attrs,
                                        status,
                                        after_equals,
                                    },
                                    None,
                                ),
                            )
                        },
                        Some(n) => {
                            push_bare(&mut attrs, &words, 0);
                            assert(words.deep_view().skip(0) =~= words.deep_view());
                            Ok(
                                (
                                    Builder::InTag { name: Some(n), attrs, status, after_equals },
                                    None,
                                ),
                            )
                        },
                    }
                },
                Lexed::Token(t) => match t {
                    Token::LT | Token::CloseTag => Err(
                        Error(ErrorKind::StructuralTag(TagFault::NestedOpen)),
                    ),
                    Token::GT | Token::SelfClose => match name {
                        None => Err(Error(ErrorKind::StructuralTag(TagFault::NoName))),
                        Some(n) => {
                            if t == Token::SelfClose && status != TagStatus::Open {
                                Err(Error(ErrorKind::StructuralTag(TagFault::SelfClosingClose)))
                            } else {
                                let tag = Tag {
                                    name: n,
                                    attrs: collect_attrs(&attrs),
                                    status: if t == Token::SelfClose {
                                        TagStatus::SelfClose
                                    } else {
                                        status
                                    },
                                };
                                Ok(
                                    (
                                        Builder::Outside { text: String::new() },
                                        Some(TagContents::Tag(tag)),
                                    ),
                                )
                            }
                        },
                    },
                    Token::Equals => Ok(
                        (Builder::InTag { name, attrs, status, after_equals: true }, None),
                    ),
                    Token::Slash => Err(Error(ErrorKind::StructuralTag(TagFault::SlashInTag))),
                },
            }
        },
    }
}

/// Reduces the token stream to the flat stream of tags and of the texts
/// that stand before a tag. Fails where the brackets of a tag do not
/// match, where a tag has no name, and where a value has no attribute.
pub fn taginize(tokenized: Vec<Lexed>) -> (res: Result<Vec<TagContents>, Error>)
    ensures
        lift(res) == tags_of(tokenized.deep_view()),
{
    let ghost tokens = tokenized.deep_view();
    let mut tags: Vec<TagContents> = Vec::new();
    let mut state = Builder::Outside { text: String::new() };
    let mut i: usize = 0;
    assert(tokens.take(0) =~= Seq::<SpecLexed>::empty());
    assert(tags.deep_view() =~= Seq::<SpecTagContents>::empty());
    while i < tokenized.len()
        invariant
            0 <= i <= tokenized.len(),
            tokens == tokenized.deep_view(),
            run(tokens.take(i as int)) == Ok::<(SpecBuilder, Seq<SpecTagContents>), SpecErrorKind>(
                (state.deep_view(), tags.deep_view()),
            ),
        decreases tokenized.len() - i,
    {
        proof {
            assert(tokens.take(i + 1).drop_last() =~= tokens.take(i as int));
            assert(tokens.take(i + 1).last() == tokenized[i as int].deep_view());
        }
        let ghost done = tags.deep_view();
        match advance(state, tokenized[i].clone()) {
            Err(e) => {
                proof {
                    lemma_run_fails(tokens, i + 1);
                }
                return Err(e);
            },
            Ok((next, item)) => {
                state = next;
                match item {
                    Some(t) => {
                        tags.push(t);
                        assert(tags.deep_view() =~= done.push(t.deep_view()));
                    },
                    None => {},
                }
            },
        }
        i += 1;
    }
    assert(tokens.take(i as int) =~= tokens);
    Ok(tags)
}

/// The flat tag stream of a markup text: its spans are tokenized, the
/// two-character symbols are joined, and the tag builder runs over them.
pub open spec fn tag_stream(text: Seq<char>) -> Result<Seq<SpecTagContents>, SpecErrorKind> {
    match lex_spans::<Markup>(spans_of(text)) {
        Ok(tokens) => tags_of(compressed(tokens)),
        Err(e) => Err(e),
    }
}

/// Reads a markup text as a flat stream of tags and texts.
pub fn lex(query: String) -> (res: Result<Vec<TagContents>, Error>)
    ensures
        lift(res) == tag_stream(query@),
{
    let pre_lexed = match pre_lex(query) {
        Ok(spans) => spans,
        Err(e) => {
            return Err(e);
        },
    };
    let tokenized = match tokenize(pre_lexed) {
        Ok(tokens) => tokens,
        Err(e) => {
            return Err(e);
        },
    };
    let tokenized = match compress_tokens(tokenized) {
        Ok(tokens) => tokens,
        Err(e) => {
            return Err(e);
        },
    };
    taginize(tokenized)
}

} // verus!
