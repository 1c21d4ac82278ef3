//! Prints tokens and rules as text, with the laws that the text of
//! tokens of the tokenizer's making is tokenized to those tokens again,
//! and that the text of a parsed rule is parsed to that rule again.

use crate::css::lexer::{
    digits_end, is_decimal, is_identifier, is_letter, is_solid, lemma_item_is_solid,
    lemma_spelling_is_symbol, lemma_spellings, lemma_symbol_is_spelled, spelling, symbol_text,
    symbols, token_stream, unsigned, Css, Lexed, SpecLexed, Token,
};
use crate::css::parser::{
    blocks_of, declaration_of, declared, everything, ruled, rules_of, selected, selector_from,
    simple, splitter, with_class, with_id, with_name, Rule, SpecBlock, SpecDeclaration,
    SpecIdentifier, SpecIdentifierType, SpecRule, SpecSelector, SpecValue,
};
use crate::css::stylesheet;
use crate::css::writer::{
    base_of, declaration_runs, declarations_tokens, head_tokens, identifier_tokens,
    lemma_parsed_rule_is_read_back, link_tokens, names_tokens, rule_tokens, selector_runs,
    selector_tokens, selectors_tokens, write_rule,
};
use crate::helper::{
    is_space, joined, lemma_pieces_append, lemma_pieces_partition, lemma_trim_hi,
    lemma_trim_hi_above, pieces, spans_of, trim_hi, trim_lo, window_text, Span, SpecErrorKind,
};
use crate::tokenizer::{
    lemma_longest_bounds, lemma_longest_is, lex_spans, longest, lookup, scan, Lexicon,
};
use vstd::prelude::*;

verus! {

/// A token as text: an identifier and a number as they are spelled, a
/// symbol by its spelling, a literal between quotation marks.
pub open spec fn token_text(token: SpecLexed) -> Seq<char> {
    match token {
        SpecLexed::Identifier(text) => text,
        SpecLexed::Number(text) => text,
        SpecLexed::String(text) => seq!['"'] + text + seq!['"'],
        SpecLexed::Token(symbol) => match spelling(symbol) {
            Some(text) => text,
            None => Seq::empty(),
        },
    }
}

/// Tokens as text: each token with one space behind it.
pub open spec fn text_of(tokens: Seq<SpecLexed>) -> Seq<char>
    decreases tokens.len(),
{
    if tokens.len() == 0 {
        Seq::empty()
    } else {
        token_text(tokens[0]) + seq![' '] + text_of(tokens.skip(1))
    }
}

/// `token` is read back from its text: it is no literal, and its text is
/// the item that it is.
pub open spec fn is_printable(token: SpecLexed) -> bool {
    !(token is String) && Css::item(token_text(token)) == Some(token)
}

/// Each of `tokens` is read back from its text.
pub open spec fn are_printable(tokens: Seq<SpecLexed>) -> bool {
    forall|k: int| 0 <= k < tokens.len() ==> is_printable(#[trigger] tokens[k])
}

/// The text of printable tokens begins with no white space.
proof fn lemma_text_is_plain(tokens: Seq<SpecLexed>)
    requires
        are_printable(tokens),
        tokens.len() > 0,
    ensures
        text_of(tokens).len() > 0,
        !is_space(text_of(tokens)[0]),
{
    assert(is_printable(tokens[0]));
    lemma_item_is_solid(token_text(tokens[0]));
    assert(text_of(tokens)[0] == token_text(tokens[0])[0]);
}

/// Where the text of printable tokens stands at the end of a span, from
/// `pos` on, the span is scanned from `pos` to those tokens.
proof fn lemma_scan_printed(s: Seq<char>, pos: int, tokens: Seq<SpecLexed>)
    requires
        0 <= pos <= s.len(),
        s.skip(pos) == text_of(tokens),
        are_printable(tokens),
    ensures
        scan::<Css>(s, pos) == Ok::<Seq<SpecLexed>, SpecErrorKind>(tokens),
    decreases tokens.len(),
{
    if tokens.len() == 0 {
        assert(s.skip(pos).len() == 0);
        assert(tokens =~= Seq::<SpecLexed>::empty());
    } else {
        let len = s.len() as int;
        let rest = tokens.skip(1);
        let word = token_text(tokens[0]);
        let end = pos + word.len() + 1;
        let tail = text_of(rest);
        assert(is_printable(tokens[0]));
        lemma_item_is_solid(word);
        assert(are_printable(rest)) by {
            assert forall|k: int| 0 <= k < rest.len() implies is_printable(#[trigger] rest[k]) by {
                assert(rest[k] == tokens[k + 1]);
            }
        }
        if rest.len() > 0 {
            lemma_text_is_plain(rest);
        }
        assert(s.skip(pos).len() == word.len() + 1 + tail.len());
        assert forall|i: int| 0 <= i < word.len() implies s[pos + i] == word[i] by {
            assert(s[pos + i] == s.skip(pos)[i]);
        }
        assert(s[end - 1] == ' ') by {
            assert(s[end - 1] == s.skip(pos)[word.len() as int]);
        }
        assert(s.skip(end) =~= tail) by {
            assert forall|i: int| 0 <= i < tail.len() implies s.skip(end)[i] == tail[i] by {
                assert(s[end + i] == s.skip(pos)[word.len() + 1 + i]);
            }
        }
        assert(!is_space(s[pos])) by {
            assert(s[pos] == word[0]);
            assert(is_solid(word[0]));
        }
        assert(!is_space(s[end - 2])) by {
            assert(s[end - 2] == word[word.len() - 1]);
            assert(is_solid(word[word.len() - 1]));
        }
        assert(trim_lo(s, pos, end) == pos);
        assert(trim_hi(s, pos, end) == end - 1) by {
            assert(is_space(s[end - 1]));
            assert(trim_hi(s, pos, end - 1) == end - 1);
        }
        assert(window_text(s, pos, end) =~= word);
        assert forall|wider: int| end < wider <= len implies Css::item(
            #[trigger] window_text(s, pos, wider),
        ).is_none() by {
            assert(rest.len() > 0);
            assert(s[end] == s.skip(end)[0]);
            assert(!is_space(s[end]));
            assert(trim_lo(s, pos, wider) == pos);
            lemma_trim_hi_above(s, pos, wider, end);
            lemma_trim_hi(s, pos, wider);
            let text = window_text(s, pos, wider);
            assert(text == s.subrange(pos, trim_hi(s, pos, wider)));
            assert(text[word.len() as int] == s[end - 1]);
            if Css::item(text).is_some() {
                lemma_item_is_solid(text);
                assert(is_solid(text[word.len() as int]));
            }
        }
        lemma_longest_is::<Css>(s, pos, len, end);
        lemma_scan_printed(s, end, rest);
        assert(seq![tokens[0]] + rest =~= tokens);
    }
}

/// `token` is a literal, or is read back from its text.
pub open spec fn is_sound(token: SpecLexed) -> bool {
    token is String || is_printable(token)
}

/// Each of `tokens` is a literal, or is read back from its text.
pub open spec fn are_sound(tokens: Seq<SpecLexed>) -> bool {
    forall|k: int| 0 <= k < tokens.len() ==> is_sound(#[trigger] tokens[k])
}

/// The item that a text spells is read back from its own text.
proof fn lemma_item_is_printable(text: Seq<char>)
    requires
        Css::item(text) is Some,
    ensures
        is_printable(Css::item(text)->Some_0),
{
    if lookup(symbols(), text) is Some {
        lemma_symbol_is_spelled(text);
    }
}

/// The items of a span are read back from their texts.
proof fn lemma_scanned_are_sound(s: Seq<char>, pos: int)
    requires
        scan::<Css>(s, pos) is Ok,
    ensures
        are_sound(scan::<Css>(s, pos)->Ok_0),
    decreases s.len() - pos,
{
    if 0 <= pos < s.len() {
        let end = longest::<Css>(s, pos, s.len() as int);
        if end > pos {
            lemma_longest_bounds::<Css>(s, pos, s.len() as int);
            lemma_scanned_are_sound(s, end);
            lemma_item_is_printable(window_text(s, pos, end));
        }
    }
}

/// The tokens that the tokenizer makes are literals or are read back
/// from their text.
pub proof fn lemma_lexed_are_sound(spans: Seq<Span>)
    requires
        lex_spans::<Css>(spans) is Ok,
    ensures
        are_sound(lex_spans::<Css>(spans)->Ok_0),
    decreases spans.len(),
{
    if spans.len() > 0 {
        lemma_lexed_are_sound(spans.drop_last());
        match spans.last() {
            Span::Literal(_) => {},
            Span::Unquoted(text) => {
                lemma_scanned_are_sound(text, 0);
            },
        }
    }
}

/// `name` is read back as an identifier.
pub open spec fn is_name(name: Seq<char>) -> bool {
    is_printable(SpecLexed::Identifier(name))
}

/// Each of `names` is read back as an identifier.
pub open spec fn are_names(names: Seq<Seq<char>>) -> bool {
    forall|k: int| 0 <= k < names.len() ==> is_name(#[trigger] names[k])
}

/// The tag, the ids and the classes of `identifier` are read back as
/// identifiers.
pub open spec fn is_printable_identifier(identifier: SpecIdentifier) -> bool {
    &&& are_names(identifier.id)
    &&& are_names(identifier.class)
    &&& match identifier.i_type {
        SpecIdentifierType::Simple { tag_name: Some(name) } => is_name(name),
        _ => true,
    }
}

/// Every name in the chain is read back as an identifier.
pub open spec fn is_printable_selector(selector: SpecSelector) -> bool
    decreases selector,
{
    &&& match selector.identifier {
        Some(i) => is_printable_identifier(i),
        None => true,
    }
    &&& match selector.child {
        Some(next) => is_printable_selector(next.selector),
        None => true,
    }
}

/// The property of `declaration` is read back as an identifier, and its
/// value as what it is.
pub open spec fn is_printable_declaration(declaration: SpecDeclaration) -> bool {
    &&& is_name(declaration.name)
    &&& match declaration.value {
        SpecValue::Keyword(word) => is_name(word),
        SpecValue::Length(number, _) => is_printable(SpecLexed::Number(number)),
        SpecValue::Color { .. } => true,
    }
}

/// Every name and every number of `rule` is read back as what it is.
pub open spec fn is_printable_rule(rule: SpecRule) -> bool {
    &&& forall|i: int|
        0 <= i < rule.selectors.len() ==> is_printable_selector(#[trigger] rule.selectors[i])
    &&& forall|i: int|
        0 <= i < rule.declarations.len() ==> is_printable_declaration(
            #[trigger] rule.declarations[i],
        )
}

/// A name added to names that are read back leaves them so.
proof fn lemma_with_name_are_names(names: Seq<Seq<char>>, name: Seq<char>)
    requires
        are_names(names),
        is_name(name),
    ensures
        are_names(with_name(names, name)),
{
}

/// A chain that is read from sound tokens holds names of those tokens
/// only.
proof fn lemma_read_selector_is_printable(
    tokens: Seq<SpecLexed>,
    pos: int,
    first: bool,
    prev: Option<Token>,
    identifier: Option<SpecIdentifier>,
    depth: nat,
)
    requires
        are_sound(tokens),
        identifier is Some ==> is_printable_identifier(identifier->Some_0),
        selector_from(tokens, pos, first, prev, identifier, depth) is Ok,
    ensures
        is_printable_selector(selector_from(tokens, pos, first, prev, identifier, depth)->Ok_0),
    decreases tokens.len() - pos, (if first {
        0nat
    } else {
        1nat
    }),
{
    if 0 <= pos < tokens.len() {
        assert(is_sound(tokens[pos]));
        match tokens[pos] {
            SpecLexed::String(_) => {},
            SpecLexed::Number(_) => {
                lemma_read_selector_is_printable(tokens, pos + 1, false, prev, identifier, depth);
            },
            SpecLexed::Token(token) => {
                if token == Token::Star {
                    lemma_read_selector_is_printable(
                        tokens,
                        pos + 1,
                        false,
                        Some(token),
                        Some(everything()),
                        depth,
                    );
                } else {
                    lemma_read_selector_is_printable(
                        tokens,
                        pos + 1,
                        false,
                        Some(token),
                        identifier,
                        depth,
                    );
                }
            },
            SpecLexed::Identifier(name) => {
                if first {
                    lemma_read_selector_is_printable(
                        tokens,
                        pos + 1,
                        false,
                        None,
                        Some(simple(name)),
                        depth,
                    );
                } else {
                    match prev {
                        Some(Token::Hash) => {
                            lemma_with_name_are_names(base_of(identifier).id, name);
                            lemma_read_selector_is_printable(
                                tokens,
                                pos + 1,
                                false,
                                None,
                                Some(with_id(identifier, name)),
                                depth,
                            );
                        },
                        Some(Token::Dot) => {
                            lemma_with_name_are_names(base_of(identifier).class, name);
                            lemma_read_selector_is_printable(
                                tokens,
                                pos + 1,
                                false,
                                None,
                                Some(with_class(identifier, name)),
                                depth,
                            );
                        },
                        Some(Token::Colon) | Some(Token::DoubleColon) => {
                            lemma_read_selector_is_printable(
                                tokens,
                                pos + 1,
                                false,
                                None,
                                identifier,
                                depth,
                            );
                        },
                        _ => {
                            lemma_read_selector_is_printable(
                                tokens,
                                pos,
                                true,
                                None,
                                None,
                                depth + 1,
                            );
                        },
                    }
                }
            },
        }
    }
}

/// The pieces of sound tokens are sound.
proof fn lemma_pieces_are_sound(tokens: Seq<SpecLexed>, sep: SpecLexed)
    requires
        are_sound(tokens),
    ensures
        forall|i: int|
            0 <= i < pieces(tokens, sep).len() ==> are_sound(#[trigger] pieces(tokens, sep)[i]),
    decreases tokens.len(),
{
    if tokens.len() > 0 {
        let front = tokens.drop_last();
        assert(are_sound(front)) by {
            assert forall|k: int| 0 <= k < front.len() implies is_sound(#[trigger] front[k]) by {
                assert(front[k] == tokens[k]);
            }
        }
        lemma_pieces_are_sound(front, sep);
        lemma_pieces_partition(front, sep);
        let before = pieces(front, sep);
        let after = pieces(tokens, sep);
        assert(is_sound(tokens[tokens.len() - 1]));
        assert forall|i: int| 0 <= i < after.len() implies are_sound(#[trigger] after[i]) by {
            if tokens.last() == sep {
                if i < before.len() {
                    assert(after[i] == before[i]);
                }
            } else {
                if i < before.len() - 1 {
                    assert(after[i] == before[i]);
                } else {
                    let grown = before.last().push(tokens.last());
                    assert(are_sound(before[before.len() - 1]));
                    assert forall|k: int| 0 <= k < grown.len() implies is_sound(
                        #[trigger] grown[k],
                    ) by {
                        if k < before.last().len() {
                            assert(grown[k] == before.last()[k]);
                        }
                    }
                }
            }
        }
    }
}

/// The chains that are read from sound groups hold names of those
/// groups only.
proof fn lemma_selected_are_printable(groups: Seq<Seq<SpecLexed>>)
    requires
        forall|i: int| 0 <= i < groups.len() ==> are_sound(#[trigger] groups[i]),
        selected(groups) is Ok,
    ensures
        forall|i: int|
            0 <= i < selected(groups)->Ok_0.len() ==> is_printable_selector(
                #[trigger] selected(groups)->Ok_0[i],
            ),
    decreases groups.len(),
{
    if groups.len() > 0 {
        let front = groups.drop_last();
        assert forall|i: int| 0 <= i < front.len() implies are_sound(#[trigger] front[i]) by {
            assert(front[i] == groups[i]);
        }
        lemma_selected_are_printable(front);
        assert(are_sound(groups[groups.len() - 1]));
        lemma_read_selector_is_printable(groups.last(), 0, true, None, None, 0);
    }
}

/// The declarations that are read from sound groups hold names and
/// numbers of those groups only.
proof fn lemma_declared_are_printable(groups: Seq<Seq<SpecLexed>>)
    requires
        forall|i: int| 0 <= i < groups.len() ==> are_sound(#[trigger] groups[i]),
    ensures
        forall|i: int|
            0 <= i < declared(groups).len() ==> is_printable_declaration(
                #[trigger] declared(groups)[i],
            ),
    decreases groups.len(),
{
    if groups.len() > 0 {
        let front = groups.drop_last();
        assert forall|i: int| 0 <= i < front.len() implies are_sound(#[trigger] front[i]) by {
            assert(front[i] == groups[i]);
        }
        lemma_declared_are_printable(front);
        let group = groups.last();
        assert(are_sound(groups[groups.len() - 1]));
        match declaration_of(group) {
            Some(declaration) => {
                assert(is_sound(group[0]));
                let rest = group.skip(2);
                assert(rest[0] == group[2]);
                assert(is_sound(group[2]));
                assert(is_printable_declaration(declaration));
                let all = declared(groups);
                assert forall|i: int| 0 <= i < all.len() implies is_printable_declaration(
                    #[trigger] all[i],
                ) by {
                    if i < declared(front).len() {
                        assert(all[i] == declared(front)[i]);
                    }
                }
            },
            None => {},
        }
    }
}

/// The blocks of sound tokens are sound.
proof fn lemma_blocks_are_sound(tokens: Seq<SpecLexed>)
    requires
        are_sound(tokens),
    ensures
        are_sound(splitter(tokens).buf),
        splitter(tokens).open is Some ==> are_sound(splitter(tokens).open->Some_0),
        forall|i: int|
            0 <= i < splitter(tokens).blocks.len() ==> are_sound(
                (#[trigger] splitter(tokens).blocks[i]).0,
            ) && are_sound(splitter(tokens).blocks[i].1),
    decreases tokens.len(),
{
    if tokens.len() > 0 {
        let front = tokens.drop_last();
        assert(are_sound(front)) by {
            assert forall|k: int| 0 <= k < front.len() implies is_sound(#[trigger] front[k]) by {
                assert(front[k] == tokens[k]);
            }
        }
        lemma_blocks_are_sound(front);
        let before = splitter(front);
        let after = splitter(tokens);
        assert(is_sound(tokens[tokens.len() - 1]));
        let grown = before.buf.push(tokens.last());
        assert(are_sound(grown)) by {
            assert forall|k: int| 0 <= k < grown.len() implies is_sound(#[trigger] grown[k]) by {
                if k < before.buf.len() {
                    assert(grown[k] == before.buf[k]);
                }
            }
        }
        assert forall|i: int| 0 <= i < after.blocks.len() implies are_sound(
            (#[trigger] after.blocks[i]).0,
        ) && are_sound(after.blocks[i].1) by {
            if i < before.blocks.len() {
                assert(after.blocks[i] == before.blocks[i]);
            }
        }
    }
}

/// The rules that are read from sound blocks hold names and numbers of
/// those blocks only.
proof fn lemma_ruled_are_printable(blocks: Seq<SpecBlock>)
    requires
        forall|i: int|
            0 <= i < blocks.len() ==> are_sound((#[trigger] blocks[i]).0) && are_sound(blocks[i].1),
        ruled(blocks) is Ok,
    ensures
        forall|i: int|
            0 <= i < ruled(blocks)->Ok_0.len() ==> is_printable_rule(
                #[trigger] ruled(blocks)->Ok_0[i],
            ),
    decreases blocks.len(),
{
    if blocks.len() > 0 {
        let front = blocks.drop_last();
        assert forall|i: int| 0 <= i < front.len() implies are_sound((#[trigger] front[i]).0)
            && are_sound(front[i].1) by {
            assert(front[i] == blocks[i]);
        }
        lemma_ruled_are_printable(front);
        let block = blocks[blocks.len() - 1];
        assert(are_sound(block.0) && are_sound(block.1));
        lemma_pieces_are_sound(block.0, SpecLexed::Token(Token::Comma));
        lemma_selected_are_printable(pieces(block.0, SpecLexed::Token(Token::Comma)));
        lemma_pieces_are_sound(block.1, SpecLexed::Token(Token::SemiColon));
        lemma_declared_are_printable(pieces(block.1, SpecLexed::Token(Token::SemiColon)));
    }
}

/// The rules that are read from sound tokens hold names and numbers of
/// those tokens only.
pub proof fn lemma_read_rules_are_printable(tokens: Seq<SpecLexed>)
    requires
        are_sound(tokens),
        rules_of(tokens) is Ok,
    ensures
        forall|i: int|
            0 <= i < rules_of(tokens)->Ok_0.len() ==> is_printable_rule(
                #[trigger] rules_of(tokens)->Ok_0[i],
            ),
{
    lemma_blocks_are_sound(tokens);
    let end = splitter(tokens);
    let blocks = blocks_of(tokens);
    assert forall|i: int| 0 <= i < blocks.len() implies are_sound((#[trigger] blocks[i]).0)
        && are_sound(blocks[i].1) by {
        if i < end.blocks.len() {
            assert(blocks[i] == end.blocks[i]);
        }
    }
    lemma_ruled_are_printable(blocks);
}

/// `text` holds no quotation mark.
pub open spec fn is_unquoted(text: Seq<char>) -> bool {
    forall|i: int| 0 <= i < text.len() ==> (#[trigger] text[i]) != '"'
}

/// `token` is a literal that holds no quotation mark, or is read back
/// from its text.
pub open spec fn is_legible(token: SpecLexed) -> bool {
    match token {
        SpecLexed::String(text) => is_unquoted(text),
        _ => is_printable(token),
    }
}

/// Each of `tokens` is a literal that holds no quotation mark, or is read
/// back from its text.
pub open spec fn are_legible(tokens: Seq<SpecLexed>) -> bool {
    forall|k: int| 0 <= k < tokens.len() ==> is_legible(#[trigger] tokens[k])
}

/// The tokens that are made of spans whose literals hold no quotation
/// mark are legible.
proof fn lemma_lexed_are_legible(spans: Seq<Span>)
    requires
        lex_spans::<Css>(spans) is Ok,
        forall|i: int|
            0 <= i < spans.len() ==> ((#[trigger] spans[i]) matches Span::Literal(text)
                ==> is_unquoted(text)),
    ensures
        are_legible(lex_spans::<Css>(spans)->Ok_0),
    decreases spans.len(),
{
    if spans.len() > 0 {
        let front = spans.drop_last();
        assert forall|i: int| 0 <= i < front.len() implies ((#[trigger] front[i]) matches Span::Literal(
            text,
        ) ==> is_unquoted(text)) by {
            assert(front[i] == spans[i]);
        }
        lemma_lexed_are_legible(front);
        let before = lex_spans::<Css>(front)->Ok_0;
        let all = lex_spans::<Css>(spans)->Ok_0;
        assert(spans[spans.len() - 1] == spans.last());
        match spans.last() {
            Span::Literal(text) => {
                assert forall|k: int| 0 <= k < all.len() implies is_legible(#[trigger] all[k]) by {
                    if k < before.len() {
                        assert(all[k] == before[k]);
                    }
                }
            },
            Span::Unquoted(text) => {
                lemma_scanned_are_sound(text, 0);
                let items = scan::<Css>(text, 0)->Ok_0;
                assert forall|k: int| 0 <= k < all.len() implies is_legible(#[trigger] all[k]) by {
                    if k < before.len() {
                        assert(all[k] == before[k]);
                    } else {
                        assert(all[k] == items[k - before.len()]);
                        assert(is_sound(items[k - before.len()]));
                        lemma_scanned_are_items(text, 0, k - before.len());
                    }
                }
            },
        }
    }
}

/// No item of a span is a literal.
proof fn lemma_scanned_are_items(s: Seq<char>, pos: int, k: int)
    requires
        scan::<Css>(s, pos) is Ok,
        0 <= k < scan::<Css>(s, pos)->Ok_0.len(),
    ensures
        !(scan::<Css>(s, pos)->Ok_0[k] is String),
    decreases s.len() - pos,
{
    if 0 <= pos < s.len() {
        let end = longest::<Css>(s, pos, s.len() as int);
        if end > pos {
            lemma_longest_bounds::<Css>(s, pos, s.len() as int);
            if k > 0 {
                lemma_scanned_are_items(s, end, k - 1);
            }
        }
    }
}

/// The tokens of a text are legible.
pub proof fn lemma_token_stream_is_legible(text: Seq<char>)
    requires
        token_stream(text) is Ok,
    ensures
        are_legible(token_stream(text)->Ok_0),
{
    lemma_pieces_partition(text, '"');
    let spans = spans_of(text);
    assert forall|i: int| 0 <= i < spans.len() implies ((#[trigger] spans[i]) matches Span::Literal(
        part,
    ) ==> is_unquoted(part)) by {
        let parts = pieces(text, '"');
        assert forall|j: int| 0 <= j < parts[i].len() implies parts[i][j] != '"' by {}
    }
    lemma_lexed_are_legible(spans);
}

/// The tokens behind the last literal of `tokens`.
pub open spec fn last_run(tokens: Seq<SpecLexed>) -> Seq<SpecLexed>
    decreases tokens.len(),
{
    if tokens.len() == 0 || tokens.last() is String {
        Seq::empty()
    } else {
        last_run(tokens.drop_last()).push(tokens.last())
    }
}

/// The last run is the end of the tokens, and holds no literal.
proof fn lemma_last_run(tokens: Seq<SpecLexed>)
    requires
        are_legible(tokens),
    ensures
        last_run(tokens).len() <= tokens.len(),
        tokens.skip(tokens.len() - last_run(tokens).len()) == last_run(tokens),
        are_printable(last_run(tokens)),
    decreases tokens.len(),
{
    let run = last_run(tokens);
    if tokens.len() == 0 || tokens.last() is String {
        assert(tokens.skip(tokens.len() as int) =~= run);
    } else {
        let front = tokens.drop_last();
        assert(are_legible(front)) by {
            assert forall|k: int| 0 <= k < front.len() implies is_legible(#[trigger] front[k]) by {
                assert(front[k] == tokens[k]);
            }
        }
        lemma_last_run(front);
        let before = last_run(front);
        assert(is_legible(tokens[tokens.len() - 1]));
        assert(tokens.skip(tokens.len() - run.len()) =~= run) by {
            assert forall|k: int| 0 <= k < run.len() implies tokens.skip(tokens.len() - run.len())[k]
                == run[k] by {
                if k < before.len() {
                    assert(front.skip(front.len() - before.len())[k] == before[k]);
                }
            }
        }
        assert forall|k: int| 0 <= k < run.len() implies is_printable(#[trigger] run[k]) by {
            if k < before.len() {
                assert(run[k] == before[k]);
            }
        }
    }
}

/// The white space that stands in front of the last run: one space
/// behind a literal, none where no literal is.
pub open spec fn lead(tokens: Seq<SpecLexed>) -> Seq<char> {
    if last_run(tokens).len() == tokens.len() {
        Seq::empty()
    } else {
        seq![' ']
    }
}

/// In a window that begins with white space, the text is that of the
/// window without its first character.
proof fn lemma_window_behind_space(s: Seq<char>, end: int)
    requires
        1 <= end <= s.len(),
        is_space(s[0]),
    ensures
        window_text(s, 0, end) == window_text(s, 1, end),
{
    if end == 1 {
        assert(trim_lo(s, 1, 1) == 1);
        assert(trim_lo(s, 0, 1) == 1);
    } else {
        assert(trim_lo(s, 0, end) == trim_lo(s, 1, end));
    }
}

/// No window wider than the longest spells an item.
proof fn lemma_longest_is_last(s: Seq<char>, pos: int, offset: int, wider: int)
    requires
        pos <= longest::<Css>(s, pos, offset) < wider <= offset,
    ensures
        Css::item(window_text(s, pos, wider)).is_none(),
    decreases offset - pos,
{
    if offset > wider {
        lemma_longest_is_last(s, pos, offset - 1, wider);
    }
}

/// The text of printable tokens behind one space is scanned to those
/// tokens.
proof fn lemma_scan_behind_space(tokens: Seq<SpecLexed>)
    requires
        are_printable(tokens),
    ensures
        scan::<Css>(seq![' '] + text_of(tokens), 0) == Ok::<Seq<SpecLexed>, SpecErrorKind>(tokens),
{
    let s = seq![' '] + text_of(tokens);
    let len = s.len() as int;
    assert(s.skip(1) =~= text_of(tokens));
    assert(is_space(s[0]));
    lemma_scan_printed(s, 1, tokens);
    if tokens.len() == 0 {
        assert(len == 1);
        assert(trim_lo(s, 1, 1) == 1);
        assert(trim_lo(s, 0, 1) == 1);
        assert(window_text(s, 0, 1) =~= Seq::<char>::empty());
        if Css::item(window_text(s, 0, 1)).is_some() {
            lemma_item_is_solid(window_text(s, 0, 1));
        }
        assert(longest::<Css>(s, 0, 0) == 0);
        assert(longest::<Css>(s, 0, 1) == 0);
        assert(tokens =~= Seq::<SpecLexed>::empty());
    } else {
        lemma_text_is_plain(tokens);
        let end = longest::<Css>(s, 1, len);
        lemma_longest_bounds::<Css>(s, 1, len);
        assert(end > 1);
        lemma_window_behind_space(s, end);
        assert forall|wider: int| end < wider <= len implies Css::item(
            #[trigger] window_text(s, 0, wider),
        ).is_none() by {
            lemma_window_behind_space(s, wider);
            lemma_longest_is_last(s, 1, len, wider);
        }
        lemma_longest_is::<Css>(s, 0, len, end);
    }
}

/// The pieces of a text with a literal between quotation marks and one
/// space behind it: those of the text, the literal, and the space.
proof fn lemma_pieces_with_literal(text: Seq<char>, literal: Seq<char>)
    requires
        is_unquoted(literal),
    ensures
        pieces(text + (seq!['"'] + literal + seq!['"']) + seq![' '], '"') == pieces(text, '"').push(
            literal,
        ).push(seq![' ']),
{
    let nothing = Seq::<char>::empty();
    let opened = text.push('"');
    let filled = opened + literal;
    let closed = filled.push('"');
    let spaced = closed + seq![' '];
    assert(opened.drop_last() =~= text);
    assert(pieces(opened, '"') == pieces(text, '"').push(nothing));
    lemma_pieces_append(opened, literal, '"');
    assert(nothing + literal =~= literal);
    assert(pieces(filled, '"') =~= pieces(text, '"').push(literal));
    assert(closed.drop_last() =~= filled);
    assert(pieces(closed, '"') == pieces(filled, '"').push(nothing));
    lemma_pieces_append(closed, seq![' '], '"');
    assert(nothing + seq![' '] =~= seq![' ']);
    assert(pieces(spaced, '"') =~= pieces(text, '"').push(literal).push(seq![' ']));
    assert(spaced =~= text + (seq!['"'] + literal + seq!['"']) + seq![' ']);
}

/// The text of legible tokens is cut at its quotation marks into an odd
/// number of pieces; the last of them is the text of the last run behind
/// its lead, and the spans before the last are tokenized to the tokens
/// before the last run.
proof fn lemma_printed_spans(tokens: Seq<SpecLexed>)
    requires
        are_legible(tokens),
    ensures
        pieces(text_of(tokens), '"').len() % 2 == 1,
        pieces(text_of(tokens), '"').last() == lead(tokens) + text_of(last_run(tokens)),
        lex_spans::<Css>(spans_of(text_of(tokens)).drop_last()) == Ok::<
            Seq<SpecLexed>,
            SpecErrorKind,
        >(tokens.take(tokens.len() - last_run(tokens).len())),
    decreases tokens.len(), 0nat,
{
    let text = text_of(tokens);
    let nothing = Seq::<char>::empty();
    if tokens.len() == 0 {
        assert(pieces(text, '"') =~= seq![nothing]);
        assert(lead(tokens) + text_of(last_run(tokens)) =~= nothing);
        assert(spans_of(text).drop_last() =~= Seq::<Span>::empty());
        assert(tokens.take(0) =~= Seq::<SpecLexed>::empty());
    } else {
        let front = tokens.drop_last();
        let token = tokens.last();
        assert(are_legible(front)) by {
            assert forall|k: int| 0 <= k < front.len() implies is_legible(#[trigger] front[k]) by {
                assert(front[k] == tokens[k]);
            }
        }
        assert(is_legible(tokens[tokens.len() - 1]));
        lemma_printed_spans(front);
        lemma_last_run(front);
        lemma_last_run(tokens);
        lemma_text_of_push(front, token);
        assert(front.push(token) =~= tokens);
        let before = text_of(front);
        let parts = pieces(before, '"');
        let spans = spans_of(before);
        match token {
            SpecLexed::String(literal) => {
                lemma_pieces_with_literal(before, literal);
                let after = parts.push(literal).push(seq![' ']);
                assert(pieces(text, '"') == after);
                assert(lead(tokens) + text_of(last_run(tokens)) =~= seq![' ']);
                assert(spans_of(text).drop_last() =~= spans.push(Span::Literal(literal)));
                lemma_printed_legible_are_read(front);
                assert(spans.push(Span::Literal(literal)).drop_last() =~= spans);
                assert(tokens.take(tokens.len() as int) =~= tokens);
            },
            _ => {
                let word = token_text(token) + seq![' '];
                assert(is_printable(token));
                lemma_item_is_solid(token_text(token));
                assert(is_unquoted(word)) by {
                    assert forall|i: int| 0 <= i < word.len() implies (#[trigger] word[i])
                        != '"' by {
                        if i < token_text(token).len() {
                            assert(word[i] == token_text(token)[i]);
                        }
                    }
                }
                lemma_pieces_append(before, word, '"');
                assert(before + token_text(token) + seq![' '] =~= before + word);
                let after = parts.update(parts.len() - 1, parts.last() + word);
                assert(pieces(text, '"') == after);
                lemma_text_of_push(last_run(front), token);
                assert(after.last() =~= lead(tokens) + text_of(last_run(tokens)));
                assert(spans_of(text).drop_last() =~= spans.drop_last());
                assert(tokens.take(tokens.len() - last_run(tokens).len()) =~= front.take(
                    front.len() - last_run(front).len(),
                ));
            },
        }
    }
}

/// The text of legible tokens is tokenized to those tokens.
pub proof fn lemma_printed_legible_are_read(tokens: Seq<SpecLexed>)
    requires
        are_legible(tokens),
    ensures
        token_stream(text_of(tokens)) == Ok::<Seq<SpecLexed>, SpecErrorKind>(tokens),
    decreases tokens.len(), 1nat,
{
    let text = text_of(tokens);
    let parts = pieces(text, '"');
    let spans = spans_of(text);
    let run = last_run(tokens);
    lemma_printed_spans(tokens);
    lemma_last_run(tokens);
    assert(spans.last() == Span::Unquoted(parts.last()));
    if lead(tokens).len() == 0 {
        assert(lead(tokens) + text_of(run) =~= text_of(run));
        assert(text_of(run).skip(0) =~= text_of(run));
        lemma_scan_printed(text_of(run), 0, run);
    } else {
        lemma_scan_behind_space(run);
    }
    assert(tokens.take(tokens.len() - run.len()) + run =~= tokens);
}

/// Tokenizing what was printed of the tokens of a text gives those
/// tokens again.
pub proof fn lemma_printed_stream_is_read(text: Seq<char>)
    requires
        token_stream(text) is Ok,
    ensures
        token_stream(text_of(token_stream(text)->Ok_0)) == token_stream(text),
{
    lemma_token_stream_is_legible(text);
    lemma_printed_legible_are_read(token_stream(text)->Ok_0);
}

/// A symbol that has a spelling is read back from it.
proof fn lemma_symbol_is_printable(symbol: Token)
    requires
        spelling(symbol) is Some,
    ensures
        is_printable(SpecLexed::Token(symbol)),
{
    lemma_spelling_is_symbol(symbol);
}

/// The identifier `x` and the number `0`, which the writer puts where a
/// chain has nothing to show, are read back from their texts.
proof fn lemma_fillers_are_printable()
    ensures
        is_printable(SpecLexed::Identifier("x"@)),
        is_printable(SpecLexed::Number("0"@)),
{
    reveal_strlit("x");
    reveal_strlit("0");
    lemma_spellings();
    let x = "x"@;
    let zero = "0"@;
    if lookup(symbols(), x) is Some {
        lemma_symbol_is_spelled(x);
    }
    if lookup(symbols(), zero) is Some {
        lemma_symbol_is_spelled(zero);
    }
    assert(is_letter(x[0]));
    assert(is_identifier(x));
    assert(unsigned(zero) == zero);
    assert(digits_end(zero, 1) == 1);
    assert(digits_end(zero, 0) == 1);
    assert(is_decimal(zero));
}

/// Names that are read back, behind their mark, are printable tokens.
proof fn lemma_names_tokens_are_printable(mark: Token, names: Seq<Seq<char>>)
    requires
        mark == Token::Hash || mark == Token::Dot,
        are_names(names),
    ensures
        are_printable(names_tokens(mark, names)),
    decreases names.len(),
{
    if names.len() > 0 {
        let front = names.drop_last();
        assert(are_names(front)) by {
            assert forall|k: int| 0 <= k < front.len() implies is_name(#[trigger] front[k]) by {
                assert(front[k] == names[k]);
            }
        }
        lemma_names_tokens_are_printable(mark, front);
        lemma_symbol_is_printable(mark);
        assert(is_name(names[names.len() - 1]));
        let before = names_tokens(mark, front);
        let all = names_tokens(mark, names);
        assert forall|k: int| 0 <= k < all.len() implies is_printable(#[trigger] all[k]) by {
            if k < before.len() {
                assert(all[k] == before[k]);
            }
        }
    }
}

/// Printable runs behind one another are printable.
proof fn lemma_printable_concat(a: Seq<SpecLexed>, b: Seq<SpecLexed>)
    requires
        are_printable(a),
        are_printable(b),
    ensures
        are_printable(a + b),
{
    let all = a + b;
    assert forall|k: int| 0 <= k < all.len() implies is_printable(#[trigger] all[k]) by {
        if k < a.len() {
            assert(all[k] == a[k]);
        } else {
            assert(all[k] == b[k - a.len()]);
        }
    }
}

/// The tokens of a chain whose names are read back are printable.
proof fn lemma_selector_tokens_are_printable(selector: SpecSelector)
    requires
        is_printable_selector(selector),
    ensures
        are_printable(selector_tokens(selector)),
    decreases selector,
{
    lemma_fillers_are_printable();
    lemma_symbol_is_printable(Token::Star);
    lemma_symbol_is_printable(Token::GT);
    lemma_symbol_is_printable(Token::Tilde);
    lemma_symbol_is_printable(Token::Plus);
    lemma_symbol_is_printable(Token::Colon);
    let head = identifier_tokens(selector.identifier);
    match selector.identifier {
        Some(i) => {
            lemma_names_tokens_are_printable(Token::Hash, i.id);
            lemma_names_tokens_are_printable(Token::Dot, i.class);
            let front = head_tokens(i.i_type);
            assert(are_printable(front));
            lemma_printable_concat(front, names_tokens(Token::Hash, i.id));
            lemma_printable_concat(
                front + names_tokens(Token::Hash, i.id),
                names_tokens(Token::Dot, i.class),
            );
        },
        None => {},
    }
    assert(are_printable(head));
    match selector.child {
        Some(next) => {
            let link = link_tokens(selector.identifier, next.child_type);
            assert(are_printable(link));
            lemma_selector_tokens_are_printable(next.selector);
            lemma_printable_concat(link, selector_tokens(next.selector));
            lemma_printable_concat(head, link + selector_tokens(next.selector));
        },
        None => {
            lemma_printable_concat(head, Seq::empty());
        },
    }
}

/// Printable runs with a printable token between each two are printable.
proof fn lemma_joined_are_printable(runs: Seq<Seq<SpecLexed>>, sep: SpecLexed)
    requires
        is_printable(sep),
        forall|i: int| 0 <= i < runs.len() ==> are_printable(#[trigger] runs[i]),
    ensures
        are_printable(joined(runs, sep)),
    decreases runs.len(),
{
    if runs.len() == 1 {
        assert(are_printable(runs[0]));
    } else if runs.len() > 1 {
        let front = runs.drop_last();
        assert forall|i: int| 0 <= i < front.len() implies are_printable(#[trigger] front[i]) by {
            assert(front[i] == runs[i]);
        }
        lemma_joined_are_printable(front, sep);
        assert(are_printable(runs[runs.len() - 1]));
        lemma_printable_concat(joined(front, sep), seq![sep]);
        assert(joined(front, sep) + seq![sep] =~= joined(front, sep).push(sep));
        lemma_printable_concat(joined(front, sep).push(sep), runs.last());
    }
}

/// The tokens of a rule whose names and numbers are read back as what
/// they are, are read back from their texts.
pub proof fn lemma_rule_tokens_are_printable(rule: SpecRule)
    requires
        is_printable_rule(rule),
    ensures
        are_printable(rule_tokens(rule)),
{
    lemma_symbol_is_printable(Token::Comma);
    lemma_symbol_is_printable(Token::SemiColon);
    lemma_symbol_is_printable(Token::BraceOpen);
    lemma_symbol_is_printable(Token::BraceClose);
    lemma_symbol_is_printable(Token::Colon);
    lemma_symbol_is_printable(Token::Px);
    let selectors = selector_runs(rule.selectors);
    assert forall|i: int| 0 <= i < selectors.len() implies are_printable(
        #[trigger] selectors[i],
    ) by {
        assert(is_printable_selector(rule.selectors[i]));
        lemma_selector_tokens_are_printable(rule.selectors[i]);
    }
    lemma_joined_are_printable(selectors, SpecLexed::Token(Token::Comma));
    let declarations = declaration_runs(rule.declarations);
    assert forall|i: int| 0 <= i < declarations.len() implies are_printable(
        #[trigger] declarations[i],
    ) by {
        assert(is_printable_declaration(rule.declarations[i]));
    }
    lemma_joined_are_printable(declarations, SpecLexed::Token(Token::SemiColon));
    let open = seq![SpecLexed::Token(Token::BraceOpen)];
    let close = seq![SpecLexed::Token(Token::BraceClose)];
    lemma_printable_concat(selectors_tokens(rule.selectors), open);
    lemma_printable_concat(
        selectors_tokens(rule.selectors) + open,
        declarations_tokens(rule.declarations),
    );
    lemma_printable_concat(
        selectors_tokens(rule.selectors) + open + declarations_tokens(rule.declarations),
        close,
    );
}

/// A rule as text: its tokens, each with one space behind it.
pub open spec fn rule_text(rule: SpecRule) -> Seq<char> {
    text_of(rule_tokens(rule))
}

/// Printing a parsed rule and parsing what was printed gives the rule
/// again: each rule of a stylesheet text, printed, is the text of a
/// stylesheet of that one rule.
pub proof fn lemma_printed_rule_parses_back(text: Seq<char>, i: int)
    requires
        stylesheet(text) is Ok,
        0 <= i < stylesheet(text)->Ok_0.len(),
    ensures
        stylesheet(rule_text(stylesheet(text)->Ok_0[i])) == Ok::<Seq<SpecRule>, SpecErrorKind>(
            seq![stylesheet(text)->Ok_0[i]],
        ),
{
    let tokens = token_stream(text)->Ok_0;
    let rule = rules_of(tokens)->Ok_0[i];
    lemma_lexed_are_sound(spans_of(text));
    lemma_read_rules_are_printable(tokens);
    lemma_rule_tokens_are_printable(rule);
    assert(are_legible(rule_tokens(rule))) by {
        assert forall|k: int| 0 <= k < rule_tokens(rule).len() implies is_legible(
            #[trigger] rule_tokens(rule)[k],
        ) by {
            assert(is_printable(rule_tokens(rule)[k]));
        }
    }
    lemma_printed_legible_are_read(rule_tokens(rule));
    lemma_parsed_rule_is_read_back(tokens, i);
}

/// The text of tokens grows at its end as the tokens do.
proof fn lemma_text_of_push(tokens: Seq<SpecLexed>, token: SpecLexed)
    ensures
        text_of(tokens.push(token)) == text_of(tokens) + token_text(token) + seq![' '],
    decreases tokens.len(),
{
    let all = tokens.push(token);
    if tokens.len() == 0 {
        assert(all.skip(1) =~= Seq::<SpecLexed>::empty());
        assert(all[0] == token);
        assert(text_of(all.skip(1)) =~= Seq::<char>::empty());
        assert(text_of(tokens) =~= Seq::<char>::empty());
        assert(text_of(all) =~= text_of(tokens) + token_text(token) + seq![' ']);
    } else {
        lemma_text_of_push(tokens.skip(1), token);
        assert(all.skip(1) =~= tokens.skip(1).push(token));
        assert(text_of(all) =~= text_of(tokens) + token_text(token) + seq![' ']);
    }
}

/// Prints tokens: each token with one space behind it, a literal between
/// quotation marks. A symbol without a spelling prints as nothing.
pub fn print_tokens(tokens: &Vec<Lexed>) -> (text: String)
    ensures
        text@ == text_of(tokens.deep_view()),
{
    let ghost all = tokens.deep_view();
    let mut text = String::new();
    let mut i: usize = 0;
    proof {
        reveal_strlit(" ");
        reveal_strlit("\"");
        assert(all.take(0) =~= Seq::<SpecLexed>::empty());
    }
    while i < tokens.len()
        invariant
            0 <= i <= tokens.len(),
            all == tokens.deep_view(),
            text@ == text_of(all.take(i as int)),
            " "@ == seq![' '],
            "\""@ == seq!['"'],
        decreases tokens.len() - i,
    {
        let ghost before = text@;
        proof {
            lemma_text_of_push(all.take(i as int), all[i as int]);
            assert(all.take(i as int).push(all[i as int]) =~= all.take(i + 1));
            assert(all[i as int] == tokens[i as int].deep_view());
        }
        match &tokens[i] {
            Lexed::Identifier(word) => {
                text.append(word.as_str());
            },
            Lexed::Number(number) => {
                text.append(number.as_str());
            },
            Lexed::String(literal) => {
                text.append("\"");
                text.append(literal.as_str());
                text.append("\"");
                assert(text@ =~= before + (seq!['"'] + literal@ + seq!['"']));
            },
            Lexed::Token(symbol) => {
                match symbol_text(*symbol) {
                    Some(word) => {
                        text.append(word);
                    },
                    None => {
                        assert(before + Seq::<char>::empty() =~= before);
                    },
                }
            },
        }
        text.append(" ");
        i += 1;
    }
    proof {
        assert(all.take(i as int) =~= all);
    }
    text
}

/// Prints a rule as text. A rule that was parsed from a text is parsed
/// again from what is printed of it.
pub fn print_rule(rule: &Rule) -> (text: String)
    ensures
        text@ == rule_text(rule.deep_view()),
{
    let tokens = write_rule(rule);
    print_tokens(&tokens)
}

} // verus!
