//! Writes a rule down as a token stream, with the law that the parser
//! reads every rule of its own making back from what was written.

use crate::css::lexer::{Lexed, SpecLexed, StyleNumber, Token};
use crate::css::parser::{
    blocks_of, combinator, declaration_of, declarations_of, declared, everything, keyword_of,
    length_of, ruled, rules_of, selected, selector_from, selectors_of, simple, splitter, unnamed,
    value_of, with_class, with_id, with_name, Declaration, Identifier, IdentifierType, Pseudo,
    Rule, Selector, SelectorChildType, SpecBlock, SpecDeclaration, SpecIdentifier,
    SpecIdentifierType, SpecRule, SpecSelector, SpecSplitter, SpecValue, Unit, Value,
};
use crate::helper::{
    joined, lemma_pieces_of_joined, lemma_pieces_partition, pieces, SpecErrorKind, MAX_DEPTH,
};
use vstd::prelude::*;

verus! {

/// Each of `names` behind the symbol `mark`.
pub open spec fn names_tokens(mark: Token, names: Seq<Seq<char>>) -> Seq<SpecLexed>
    decreases names.len(),
{
    if names.len() == 0 {
        Seq::empty()
    } else {
        names_tokens(mark, names.drop_last()) + seq![
            SpecLexed::Token(mark),
            SpecLexed::Identifier(names.last()),
        ]
    }
}

/// What a simple selector names, as a token: the tag, `*`, or nothing.
pub open spec fn head_tokens(i_type: SpecIdentifierType) -> Seq<SpecLexed> {
    match i_type {
        SpecIdentifierType::Simple { tag_name: Some(name) } => seq![SpecLexed::Identifier(name)],
        SpecIdentifierType::Everything => seq![SpecLexed::Token(Token::Star)],
        _ => Seq::empty(),
    }
}

/// A simple selector as tokens: what it names, its ids behind `#`, and
/// its classes behind `.`.
pub open spec fn identifier_tokens(identifier: Option<SpecIdentifier>) -> Seq<SpecLexed> {
    match identifier {
        None => Seq::empty(),
        Some(i) => head_tokens(i.i_type) + names_tokens(Token::Hash, i.id) + names_tokens(
            Token::Dot,
            i.class,
        ),
    }
}

/// The tokens between a simple selector and the next selector of its
/// chain. A combinator is its symbol. A descendant has no symbol: behind
/// a tag, an id or a class nothing is written; behind a bare `*` a
/// pseudo-class is written, which the parser passes over, and in front of
/// a chain that begins with no simple selector a number is, which it
/// passes over too.
pub open spec fn link_tokens(
    identifier: Option<SpecIdentifier>,
    child_type: SelectorChildType,
) -> Seq<SpecLexed> {
    match child_type {
        SelectorChildType::Child => seq![SpecLexed::Token(Token::GT)],
        SelectorChildType::GeneralSibling => seq![SpecLexed::Token(Token::Tilde)],
        SelectorChildType::AdjacentSibling => seq![SpecLexed::Token(Token::Plus)],
        SelectorChildType::Descendant => match identifier {
            None => seq![SpecLexed::Number("0"@)],
            Some(i) => if i.id.len() + i.class.len() > 0 {
                Seq::empty()
            } else {
                match i.i_type {
                    SpecIdentifierType::Simple { tag_name: Some(_) } => Seq::empty(),
                    SpecIdentifierType::Everything => seq![
                        SpecLexed::Token(Token::Colon),
                        SpecLexed::Identifier("x"@),
                    ],
                    _ => seq![SpecLexed::Number("0"@)],
                }
            },
        },
    }
}

/// A selector chain as tokens.
pub open spec fn selector_tokens(selector: SpecSelector) -> Seq<SpecLexed>
    decreases selector,
{
    identifier_tokens(selector.identifier) + match selector.child {
        None => Seq::empty(),
        Some(next) => link_tokens(selector.identifier, next.child_type) + selector_tokens(
            next.selector,
        ),
    }
}

/// No name stands twice in `names`.
pub open spec fn no_repeats(names: Seq<Seq<char>>) -> bool {
    forall|i: int, j: int| 0 <= i < j < names.len() ==> names[i] != names[j]
}

/// `identifier` is a simple selector as the parser builds them: it names
/// a tag, or `*`, or it has at least one id or class; and no id and no
/// class stands twice.
pub open spec fn is_parsed_identifier(identifier: SpecIdentifier) -> bool {
    &&& no_repeats(identifier.id)
    &&& no_repeats(identifier.class)
    &&& match identifier.i_type {
        SpecIdentifierType::Simple { tag_name: Some(_) } => true,
        SpecIdentifierType::Simple { tag_name: None } => identifier.id.len()
            + identifier.class.len() > 0,
        SpecIdentifierType::Everything => true,
        SpecIdentifierType::Any => false,
    }
}

/// `selector` begins with a tag.
pub open spec fn begins_with_tag(selector: SpecSelector) -> bool {
    match selector.identifier {
        Some(i) => i.i_type is Simple && i.i_type->tag_name is Some,
        None => false,
    }
}

/// `selector` is a chain as the parser builds them, of at most `room`
/// selectors: it has no pseudo-classes, its simple selector is of the
/// parser's making, and every selector behind the first begins with a
/// tag.
pub open spec fn is_parsed_selector(selector: SpecSelector, room: nat) -> bool
    decreases selector,
{
    &&& room > 0
    &&& selector.pseudo.len() == 0
    &&& match selector.identifier {
        Some(i) => is_parsed_identifier(i),
        None => true,
    }
    &&& match selector.child {
        None => true,
        Some(next) => begins_with_tag(next.selector) && is_parsed_selector(
            next.selector,
            (room - 1) as nat,
        ),
    }
}

/// Reading from a place in a token run is reading the rest of the run
/// from its front.
proof fn lemma_selector_from_rest(
    tokens: Seq<SpecLexed>,
    p: int,
    q: int,
    first: bool,
    prev: Option<Token>,
    identifier: Option<SpecIdentifier>,
    depth: nat,
)
    requires
        0 <= p,
        0 <= q,
        p + q <= tokens.len(),
    ensures
        selector_from(tokens, p + q, first, prev, identifier, depth) == selector_from(
            tokens.skip(p),
            q,
            first,
            prev,
            identifier,
            depth,
        ),
    decreases tokens.len() - p - q, (if first {
        0nat
    } else {
        1nat
    }),
{
    let rest = tokens.skip(p);
    if p + q < tokens.len() {
        assert(rest[q] == tokens[p + q]);
        match tokens[p + q] {
            SpecLexed::String(_) => {},
            SpecLexed::Number(_) => {
                lemma_selector_from_rest(tokens, p, q + 1, false, prev, identifier, depth);
            },
            SpecLexed::Token(token) => {
                if token == Token::Star {
                    if first {
                        lemma_selector_from_rest(
                            tokens,
                            p,
                            q + 1,
                            false,
                            Some(token),
                            Some(everything()),
                            depth,
                        );
                    }
                } else {
                    lemma_selector_from_rest(
                        tokens,
                        p,
                        q + 1,
                        false,
                        Some(token),
                        identifier,
                        depth,
                    );
                }
            },
            SpecLexed::Identifier(name) => {
                if first {
                    lemma_selector_from_rest(
                        tokens,
                        p,
                        q + 1,
                        false,
                        None,
                        Some(simple(name)),
                        depth,
                    );
                } else {
                    match prev {
                        Some(Token::Hash) => {
                            lemma_selector_from_rest(
                                tokens,
                                p,
                                q + 1,
                                false,
                                None,
                                Some(with_id(identifier, name)),
                                depth,
                            );
                        },
                        Some(Token::Dot) => {
                            lemma_selector_from_rest(
                                tokens,
                                p,
                                q + 1,
                                false,
                                None,
                                Some(with_class(identifier, name)),
                                depth,
                            );
                        },
                        Some(Token::Colon) | Some(Token::DoubleColon) => {
                            lemma_selector_from_rest(
                                tokens,
                                p,
                                q + 1,
                                false,
                                None,
                                identifier,
                                depth,
                            );
                        },
                        _ => {
                            if combinator(prev) is Some && depth + 1 < MAX_DEPTH {
                                lemma_selector_from_rest(tokens, p, q, true, None, None, depth + 1);
                            }
                        },
                    }
                }
            },
        }
    }
}

/// Reading a token run is taking its first token and reading what is
/// left.
proof fn lemma_selector_from_next(
    token: SpecLexed,
    rest: Seq<SpecLexed>,
    first: bool,
    prev: Option<Token>,
    identifier: Option<SpecIdentifier>,
    depth: nat,
)
    ensures
        selector_from(seq![token] + rest, 1, first, prev, identifier, depth) == selector_from(
            rest,
            0,
            first,
            prev,
            identifier,
            depth,
        ),
{
    let tokens = seq![token] + rest;
    lemma_selector_from_rest(tokens, 1, 0, first, prev, identifier, depth);
    assert(tokens.skip(1) =~= rest);
}

/// `identifier` with each of `names` added to it, as ids behind `#` and
/// as classes behind `.`.
pub open spec fn with_names(
    mark: Token,
    identifier: Option<SpecIdentifier>,
    names: Seq<Seq<char>>,
) -> Option<SpecIdentifier>
    decreases names.len(),
{
    if names.len() == 0 {
        identifier
    } else {
        let before = with_names(mark, identifier, names.drop_last());
        Some(
            if mark == Token::Hash {
                with_id(before, names.last())
            } else {
                with_class(before, names.last())
            },
        )
    }
}

/// Names behind their mark are added to the simple selector, whatever
/// stood before them.
proof fn lemma_read_names(
    mark: Token,
    names: Seq<Seq<char>>,
    rest: Seq<SpecLexed>,
    first: bool,
    prev: Option<Token>,
    identifier: Option<SpecIdentifier>,
    depth: nat,
)
    requires
        mark == Token::Hash || mark == Token::Dot,
    ensures
        selector_from(names_tokens(mark, names) + rest, 0, first, prev, identifier, depth)
            == selector_from(
            rest,
            0,
            if names.len() == 0 {
                first
            } else {
                false
            },
            if names.len() == 0 {
                prev
            } else {
                None
            },
            with_names(mark, identifier, names),
            depth,
        ),
    decreases names.len(),
{
    if names.len() == 0 {
        assert(names_tokens(mark, names) + rest =~= rest);
    } else {
        let front = names.drop_last();
        let name = SpecLexed::Identifier(names.last());
        let named = seq![name] + rest;
        let marked = seq![SpecLexed::Token(mark)] + named;
        assert(names_tokens(mark, names) + rest =~= names_tokens(mark, front) + marked);
        lemma_read_names(mark, front, marked, first, prev, identifier, depth);
        let before = with_names(mark, identifier, front);
        assert(marked[0] == SpecLexed::Token(mark));
        lemma_selector_from_next(SpecLexed::Token(mark), named, false, Some(mark), before, depth);
        assert(named[0] == name);
        lemma_selector_from_next(
            name,
            rest,
            false,
            None,
            with_names(mark, identifier, names),
            depth,
        );
    }
}

/// The simple selector to which names are added: the one that is there,
/// or the one that names no tag.
pub open spec fn base_of(identifier: Option<SpecIdentifier>) -> SpecIdentifier {
    match identifier {
        Some(identifier) => identifier,
        None => unnamed(),
    }
}

/// Ids of which none stands twice are added one by one, in their order.
proof fn lemma_with_ids(identifier: Option<SpecIdentifier>, names: Seq<Seq<char>>)
    requires
        base_of(identifier).id.len() == 0,
        no_repeats(names),
        names.len() > 0,
    ensures
        with_names(Token::Hash, identifier, names) == Some(
            SpecIdentifier {
                id: names,
                class: base_of(identifier).class,
                i_type: base_of(identifier).i_type,
            },
        ),
    decreases names.len(),
{
    let front = names.drop_last();
    if front.len() == 0 {
        assert(with_name(base_of(identifier).id, names.last()) =~= names);
    } else {
        lemma_with_ids(identifier, front);
        assert(!front.contains(names.last())) by {
            if front.contains(names.last()) {
                let i = choose|i: int| 0 <= i < front.len() && front[i] == names.last();
                assert(names[i] == names[names.len() - 1]);
            }
        }
        assert(front.push(names.last()) =~= names);
    }
}

/// Classes of which none stands twice are added one by one, in their
/// order.
proof fn lemma_with_classes(identifier: Option<SpecIdentifier>, names: Seq<Seq<char>>)
    requires
        base_of(identifier).class.len() == 0,
        no_repeats(names),
        names.len() > 0,
    ensures
        with_names(Token::Dot, identifier, names) == Some(
            SpecIdentifier {
                id: base_of(identifier).id,
                class: names,
                i_type: base_of(identifier).i_type,
            },
        ),
    decreases names.len(),
{
    let front = names.drop_last();
    if front.len() == 0 {
        assert(with_name(base_of(identifier).class, names.last()) =~= names);
    } else {
        lemma_with_classes(identifier, front);
        assert(!front.contains(names.last())) by {
            if front.contains(names.last()) {
                let i = choose|i: int| 0 <= i < front.len() && front[i] == names.last();
                assert(names[i] == names[names.len() - 1]);
            }
        }
        assert(front.push(names.last()) =~= names);
    }
}

/// The last symbol that the parser holds when it has read a simple
/// selector: `*` behind a bare `*`, none otherwise.
pub open spec fn symbol_behind(identifier: Option<SpecIdentifier>) -> Option<Token> {
    match identifier {
        Some(i) => if i.id.len() + i.class.len() == 0 && i.i_type is Everything {
            Some(Token::Star)
        } else {
            None
        },
        None => None,
    }
}

/// A simple selector of the parser's making is read back from its
/// tokens, whatever follows them.
proof fn lemma_read_identifier(
    identifier: Option<SpecIdentifier>,
    rest: Seq<SpecLexed>,
    depth: nat,
)
    requires
        identifier is Some ==> is_parsed_identifier(identifier->Some_0),
    ensures
        selector_from(identifier_tokens(identifier) + rest, 0, true, None, None, depth)
            == selector_from(
            rest,
            0,
            identifier is None,
            symbol_behind(identifier),
            identifier,
            depth,
        ),
{
    match identifier {
        None => {
            assert(identifier_tokens(identifier) + rest =~= rest);
        },
        Some(i) => {
            let ids = names_tokens(Token::Hash, i.id);
            let classes = names_tokens(Token::Dot, i.class);
            let behind_ids = classes + rest;
            let behind_head = ids + behind_ids;
            let head = head_tokens(i.i_type);
            assert(identifier_tokens(identifier) + rest =~= head + behind_head);
            let start: Option<SpecIdentifier> = match i.i_type {
                SpecIdentifierType::Simple { tag_name: Some(name) } => Some(simple(name)),
                SpecIdentifierType::Everything => Some(everything()),
                _ => None,
            };
            let symbol: Option<Token> = if i.i_type is Everything {
                Some(Token::Star)
            } else {
                None
            };
            assert(selector_from(head + behind_head, 0, true, None, None, depth) == selector_from(
                behind_head,
                0,
                start is None,
                symbol,
                start,
                depth,
            )) by {
                match i.i_type {
                    SpecIdentifierType::Simple { tag_name: Some(name) } => {
                        assert((head + behind_head)[0] == SpecLexed::Identifier(name));
                        lemma_selector_from_next(
                            SpecLexed::Identifier(name),
                            behind_head,
                            false,
                            None,
                            start,
                            depth,
                        );
                    },
                    SpecIdentifierType::Everything => {
                        assert((head + behind_head)[0] == SpecLexed::Token(Token::Star));
                        lemma_selector_from_next(
                            SpecLexed::Token(Token::Star),
                            behind_head,
                            false,
                            symbol,
                            start,
                            depth,
                        );
                    },
                    _ => {
                        assert(head + behind_head =~= behind_head);
                    },
                }
            }
            lemma_read_names(Token::Hash, i.id, behind_ids, start is None, symbol, start, depth);
            let with_ids = with_names(Token::Hash, start, i.id);
            if i.id.len() > 0 {
                lemma_with_ids(start, i.id);
            }
            lemma_read_names(
                Token::Dot,
                i.class,
                rest,
                if i.id.len() == 0 {
                    start is None
                } else {
                    false
                },
                if i.id.len() == 0 {
                    symbol
                } else {
                    None
                },
                with_ids,
                depth,
            );
            if i.class.len() > 0 {
                lemma_with_classes(with_ids, i.class);
            }
            assert(i.id.len() == 0 ==> i.id =~= Seq::<Seq<char>>::empty());
            assert(i.class.len() == 0 ==> i.class =~= Seq::<Seq<char>>::empty());
            assert(with_names(Token::Dot, with_ids, i.class) == identifier);
        },
    }
}

/// The tokens of a chain that begins with a tag begin with that tag.
proof fn lemma_tag_in_front(selector: SpecSelector)
    requires
        begins_with_tag(selector),
    ensures
        selector_tokens(selector).len() > 0,
        selector_tokens(selector)[0] == SpecLexed::Identifier(
            selector.identifier->Some_0.i_type->tag_name->Some_0,
        ),
{
}

/// A selector chain of the parser's making is read back from its tokens.
pub proof fn lemma_written_selector_reads(selector: SpecSelector, depth: nat)
    requires
        depth <= MAX_DEPTH,
        is_parsed_selector(selector, (MAX_DEPTH - depth) as nat),
    ensures
        selector_from(selector_tokens(selector), 0, true, None, None, depth) == Ok::<
            SpecSelector,
            SpecErrorKind,
        >(selector),
    decreases selector,
{
    let identifier = selector.identifier;
    let first = identifier is None;
    let symbol = symbol_behind(identifier);
    assert(selector.pseudo =~= Seq::<Pseudo>::empty());
    match selector.child {
        None => {
            lemma_read_identifier(identifier, Seq::empty(), depth);
            assert(selector_tokens(selector) =~= identifier_tokens(identifier) + Seq::<
                SpecLexed,
            >::empty());
        },
        Some(next) => {
            let link = link_tokens(identifier, next.child_type);
            let chain = selector_tokens(next.selector);
            lemma_read_identifier(identifier, link + chain, depth);
            lemma_tag_in_front(next.selector);
            lemma_written_selector_reads(next.selector, depth + 1);
            let name = next.selector.identifier->Some_0.i_type->tag_name->Some_0;
            let symbol_in_front: Option<Token> = match next.child_type {
                SelectorChildType::Descendant => None,
                SelectorChildType::Child => Some(Token::GT),
                SelectorChildType::GeneralSibling => Some(Token::Tilde),
                SelectorChildType::AdjacentSibling => Some(Token::Plus),
            };
            assert(selector_from(link + chain, 0, first, symbol, identifier, depth)
                == selector_from(chain, 0, false, symbol_in_front, identifier, depth)) by {
                if link.len() == 0 {
                    assert(link + chain =~= chain);
                } else if link.len() == 1 {
                    assert(link + chain =~= seq![link[0]] + chain);
                    assert((link + chain)[0] == link[0]);
                    lemma_selector_from_next(
                        link[0],
                        chain,
                        false,
                        symbol_in_front,
                        identifier,
                        depth,
                    );
                } else {
                    let passed = seq![link[1]] + chain;
                    assert(link + chain =~= seq![link[0]] + passed);
                    assert((link + chain)[0] == link[0]);
                    lemma_selector_from_next(
                        link[0],
                        passed,
                        false,
                        Some(Token::Colon),
                        identifier,
                        depth,
                    );
                    assert(passed[0] == link[1]);
                    lemma_selector_from_next(link[1], chain, false, None, identifier, depth);
                }
            }
            assert(chain[0] == SpecLexed::Identifier(name));
            assert(combinator(symbol_in_front) == Some(next.child_type));
            assert(selector_tokens(selector) =~= identifier_tokens(identifier) + (link + chain));
            assert(depth + 1 < MAX_DEPTH) by {
                assert(is_parsed_selector(next.selector, (MAX_DEPTH - depth - 1) as nat));
            }
        },
    }
}

/// A name added to names of which none stands twice leaves it so.
proof fn lemma_with_name_no_repeats(names: Seq<Seq<char>>, name: Seq<char>)
    requires
        no_repeats(names),
    ensures
        no_repeats(with_name(names, name)),
        with_name(names, name).len() > 0,
{
    if names.contains(name) {
        let i = choose|i: int| 0 <= i < names.len() && names[i] == name;
        assert(names.len() > 0);
    } else {
        let after = names.push(name);
        assert forall|i: int, j: int| 0 <= i < j < after.len() implies after[i] != after[j] by {
            if j == names.len() {
                assert(names.contains(after[i]));
            } else {
                assert(names[i] != names[j]);
            }
        }
    }
}

/// Every chain that the parser reads is of the form that
/// [`is_parsed_selector`] tells, and keeps what its simple selector named
/// when the reading began.
pub proof fn lemma_read_selector_is_parsed(
    tokens: Seq<SpecLexed>,
    pos: int,
    first: bool,
    prev: Option<Token>,
    identifier: Option<SpecIdentifier>,
    depth: nat,
)
    requires
        depth < MAX_DEPTH,
        first ==> identifier is None,
        identifier is Some ==> is_parsed_identifier(identifier->Some_0),
        selector_from(tokens, pos, first, prev, identifier, depth) is Ok,
    ensures
        is_parsed_selector(
            selector_from(tokens, pos, first, prev, identifier, depth)->Ok_0,
            (MAX_DEPTH - depth) as nat,
        ),
        identifier is Some ==> {
            let read = selector_from(tokens, pos, first, prev, identifier, depth)->Ok_0;
            read.identifier is Some && read.identifier->Some_0.i_type
                == identifier->Some_0.i_type
        },
    decreases tokens.len() - pos, (if first {
        0nat
    } else {
        1nat
    }),
{
    if 0 <= pos < tokens.len() {
        match tokens[pos] {
            SpecLexed::String(_) => {},
            SpecLexed::Number(_) => {
                lemma_read_selector_is_parsed(tokens, pos + 1, false, prev, identifier, depth);
            },
            SpecLexed::Token(token) => {
                if token == Token::Star {
                    lemma_read_selector_is_parsed(
                        tokens,
                        pos + 1,
                        false,
                        Some(token),
                        Some(everything()),
                        depth,
                    );
                } else {
                    lemma_read_selector_is_parsed(
                        tokens,
                        pos + 1,
                        false,
                        Some(token),
                        identifier,
                        depth,
                    );
                }
            },
            SpecLexed::Identifier(name) => {
                if first {
                    lemma_read_selector_is_parsed(
                        tokens,
                        pos + 1,
                        false,
                        None,
                        Some(simple(name)),
                        depth,
                    );
                } else {
                    match prev {
                        Some(Token::Hash) => {
                            lemma_with_name_no_repeats(base_of(identifier).id, name);
                            lemma_read_selector_is_parsed(
                                tokens,
                                pos + 1,
                                false,
                                None,
                                Some(with_id(identifier, name)),
                                depth,
                            );
                        },
                        Some(Token::Dot) => {
                            lemma_with_name_no_repeats(base_of(identifier).class, name);
                            lemma_read_selector_is_parsed(
                                tokens,
                                pos + 1,
                                false,
                                None,
                                Some(with_class(identifier, name)),
                                depth,
                            );
                        },
                        Some(Token::Colon) | Some(Token::DoubleColon) => {
                            lemma_read_selector_is_parsed(
                                tokens,
                                pos + 1,
                                false,
                                None,
                                identifier,
                                depth,
                            );
                        },
                        _ => {
                            lemma_read_selector_is_parsed(tokens, pos, true, None, None, depth + 1);
                            lemma_read_selector_is_parsed(
                                tokens,
                                pos + 1,
                                false,
                                None,
                                Some(simple(name)),
                                depth + 1,
                            );
                        },
                    }
                }
            },
        }
    }
}

/// `token` is one of the symbols at which the parser cuts a token
/// stream: a brace, a comma or a semicolon.
pub open spec fn is_delimiter(token: SpecLexed) -> bool {
    token == SpecLexed::Token(Token::BraceOpen) || token == SpecLexed::Token(Token::BraceClose)
        || token == SpecLexed::Token(Token::Comma) || token == SpecLexed::Token(Token::SemiColon)
}

/// None of `tokens` is a delimiter.
pub open spec fn is_plain(tokens: Seq<SpecLexed>) -> bool {
    forall|k: int| 0 <= k < tokens.len() ==> !is_delimiter(#[trigger] tokens[k])
}

/// Names behind their mark hold no delimiter.
proof fn lemma_names_tokens_plain(mark: Token, names: Seq<Seq<char>>)
    requires
        mark == Token::Hash || mark == Token::Dot,
    ensures
        is_plain(names_tokens(mark, names)),
    decreases names.len(),
{
    if names.len() > 0 {
        lemma_names_tokens_plain(mark, names.drop_last());
    }
}

/// The tokens of a selector chain hold no delimiter.
proof fn lemma_selector_tokens_plain(selector: SpecSelector)
    ensures
        is_plain(selector_tokens(selector)),
    decreases selector,
{
    reveal_strlit("0");
    reveal_strlit("x");
    match selector.identifier {
        Some(i) => {
            lemma_names_tokens_plain(Token::Hash, i.id);
            lemma_names_tokens_plain(Token::Dot, i.class);
        },
        None => {},
    }
    assert(is_plain(identifier_tokens(selector.identifier)));
    match selector.child {
        Some(next) => {
            lemma_selector_tokens_plain(next.selector);
            assert(is_plain(link_tokens(selector.identifier, next.child_type)));
        },
        None => {},
    }
}

/// The token runs of the selector chains, one for each.
pub open spec fn selector_runs(selectors: Seq<SpecSelector>) -> Seq<Seq<SpecLexed>> {
    Seq::new(selectors.len(), |i: int| selector_tokens(selectors[i]))
}

/// The selector chains of a rule as tokens, with a comma between each
/// two.
pub open spec fn selectors_tokens(selectors: Seq<SpecSelector>) -> Seq<SpecLexed> {
    joined(selector_runs(selectors), SpecLexed::Token(Token::Comma))
}

/// Each of the chains is of the parser's making.
pub open spec fn are_parsed_selectors(selectors: Seq<SpecSelector>) -> bool {
    forall|i: int|
        0 <= i < selectors.len() ==> is_parsed_selector(#[trigger] selectors[i], MAX_DEPTH as nat)
}

/// The token runs of chains of the parser's making are read as those
/// chains, one by one.
proof fn lemma_runs_are_selected(selectors: Seq<SpecSelector>)
    requires
        are_parsed_selectors(selectors),
    ensures
        selected(selector_runs(selectors)) == Ok::<Seq<SpecSelector>, SpecErrorKind>(selectors),
    decreases selectors.len(),
{
    let runs = selector_runs(selectors);
    if selectors.len() == 0 {
        assert(selectors =~= Seq::<SpecSelector>::empty());
    } else {
        let front = selectors.drop_last();
        assert(are_parsed_selectors(front)) by {
            assert forall|i: int| 0 <= i < front.len() implies is_parsed_selector(
                #[trigger] front[i],
                MAX_DEPTH as nat,
            ) by {
                assert(front[i] == selectors[i]);
            }
        }
        lemma_runs_are_selected(front);
        assert(runs.drop_last() =~= selector_runs(front));
        assert(is_parsed_selector(selectors[selectors.len() - 1], MAX_DEPTH as nat));
        lemma_written_selector_reads(selectors.last(), 0);
        assert(front.push(selectors.last()) =~= selectors);
    }
}

/// The selector chains of a rule are read back from their tokens.
pub proof fn lemma_written_selectors_read(selectors: Seq<SpecSelector>)
    requires
        selectors.len() >= 1,
        are_parsed_selectors(selectors),
    ensures
        selectors_of(selectors_tokens(selectors)) == Ok::<Seq<SpecSelector>, SpecErrorKind>(
            selectors,
        ),
{
    let runs = selector_runs(selectors);
    let comma = SpecLexed::Token(Token::Comma);
    assert forall|i: int, j: int| 0 <= i < runs.len() && 0 <= j < runs[i].len() implies runs[i][j]
        != comma by {
        lemma_selector_tokens_plain(selectors[i]);
    }
    lemma_pieces_of_joined(runs, comma);
    lemma_runs_are_selected(selectors);
}

/// The chains of a rule as tokens hold no brace.
proof fn lemma_joined_selectors_plain(selectors: Seq<SpecSelector>)
    ensures
        forall|k: int|
            0 <= k < selectors_tokens(selectors).len() ==> {
                let token = #[trigger] selectors_tokens(selectors)[k];
                token != SpecLexed::Token(Token::BraceOpen) && token != SpecLexed::Token(
                    Token::BraceClose,
                )
            },
    decreases selectors.len(),
{
    let runs = selector_runs(selectors);
    if selectors.len() == 1 {
        lemma_selector_tokens_plain(selectors[0]);
    } else if selectors.len() > 1 {
        let front = selectors.drop_last();
        lemma_joined_selectors_plain(front);
        assert(runs.drop_last() =~= selector_runs(front));
        lemma_selector_tokens_plain(selectors.last());
    }
}

/// Every list of chains that the parser reads has at least one chain,
/// and each is of the form that [`is_parsed_selector`] tells.
pub proof fn lemma_read_selectors_are_parsed(tokens: Seq<SpecLexed>)
    requires
        selectors_of(tokens) is Ok,
    ensures
        selectors_of(tokens)->Ok_0.len() >= 1,
        are_parsed_selectors(selectors_of(tokens)->Ok_0),
{
    let groups = pieces(tokens, SpecLexed::Token(Token::Comma));
    lemma_pieces_partition(tokens, SpecLexed::Token(Token::Comma));
    lemma_selected_are_parsed(groups);
}

/// The chains that are read from groups are as many as the groups, and
/// each is of the parser's form.
proof fn lemma_selected_are_parsed(groups: Seq<Seq<SpecLexed>>)
    requires
        selected(groups) is Ok,
    ensures
        selected(groups)->Ok_0.len() == groups.len(),
        are_parsed_selectors(selected(groups)->Ok_0),
    decreases groups.len(),
{
    if groups.len() > 0 {
        lemma_selected_are_parsed(groups.drop_last());
        lemma_read_selector_is_parsed(groups.last(), 0, true, None, None, 0);
    }
}

/// The value of a declaration as tokens. A colour has none: the parser
/// reads none.
pub open spec fn value_tokens(value: SpecValue) -> Seq<SpecLexed> {
    match value {
        SpecValue::Keyword(word) => seq![SpecLexed::Identifier(word)],
        SpecValue::Length(number, Unit::Px) => seq![
            SpecLexed::Number(number),
            SpecLexed::Token(Token::Px),
        ],
        SpecValue::Color { .. } => Seq::empty(),
    }
}

/// A declaration as tokens: its property, a colon, and its value.
pub open spec fn declaration_tokens(declaration: SpecDeclaration) -> Seq<SpecLexed> {
    seq![SpecLexed::Identifier(declaration.name), SpecLexed::Token(Token::Colon)] + value_tokens(
        declaration.value,
    )
}

/// `declaration` is one as the parser builds them: a `width` with a
/// length, or a `display` with a keyword.
pub open spec fn is_parsed_declaration(declaration: SpecDeclaration) -> bool {
    ||| declaration.name == "width"@ && declaration.value is Length
    ||| declaration.name == "display"@ && declaration.value is Keyword
}

/// The token runs of the declarations, one for each.
pub open spec fn declaration_runs(declarations: Seq<SpecDeclaration>) -> Seq<Seq<SpecLexed>> {
    Seq::new(declarations.len(), |i: int| declaration_tokens(declarations[i]))
}

/// The declarations of a rule as tokens, with a semicolon between each
/// two.
pub open spec fn declarations_tokens(declarations: Seq<SpecDeclaration>) -> Seq<SpecLexed> {
    joined(declaration_runs(declarations), SpecLexed::Token(Token::SemiColon))
}

/// Each of the declarations is of the parser's making.
pub open spec fn are_parsed_declarations(declarations: Seq<SpecDeclaration>) -> bool {
    forall|i: int|
        0 <= i < declarations.len() ==> is_parsed_declaration(#[trigger] declarations[i])
}

/// A declaration of the parser's making is read back from its tokens.
proof fn lemma_written_declaration_reads(declaration: SpecDeclaration)
    requires
        is_parsed_declaration(declaration),
    ensures
        declaration_of(declaration_tokens(declaration)) == Some(declaration),
        forall|k: int|
            0 <= k < declaration_tokens(declaration).len() ==> {
                let token = #[trigger] declaration_tokens(declaration)[k];
                token != SpecLexed::Token(Token::SemiColon) && token != SpecLexed::Token(
                    Token::BraceClose,
                )
            },
{
    reveal_strlit("width");
    reveal_strlit("display");
    assert("width"@.len() == 5 && "display"@.len() == 7);
    let tokens = declaration_tokens(declaration);
    let rest = value_tokens(declaration.value);
    assert(tokens.skip(2) =~= rest);
    match declaration.value {
        SpecValue::Length(number, unit) => {
            assert(unit == Unit::Px);
            assert(rest[0] == SpecLexed::Number(number));
            assert(length_of(rest) == Ok::<SpecValue, SpecErrorKind>(declaration.value));
        },
        SpecValue::Keyword(word) => {
            assert(rest[0] == SpecLexed::Identifier(word));
            assert(keyword_of(rest) == Ok::<SpecValue, SpecErrorKind>(declaration.value));
        },
        SpecValue::Color { .. } => {},
    }
    assert(value_of(declaration.name, rest) == Some(declaration.value));
    assert(tokens[0] == SpecLexed::Identifier(declaration.name));
    assert(tokens[1] == SpecLexed::Token(Token::Colon));
}

/// The token runs of declarations of the parser's making are read as
/// those declarations, one by one.
proof fn lemma_runs_are_declared(declarations: Seq<SpecDeclaration>)
    requires
        are_parsed_declarations(declarations),
    ensures
        declared(declaration_runs(declarations)) == declarations,
    decreases declarations.len(),
{
    let runs = declaration_runs(declarations);
    if declarations.len() == 0 {
        assert(declarations =~= Seq::<SpecDeclaration>::empty());
    } else {
        let front = declarations.drop_last();
        assert(are_parsed_declarations(front)) by {
            assert forall|i: int| 0 <= i < front.len() implies is_parsed_declaration(
                #[trigger] front[i],
            ) by {
                assert(front[i] == declarations[i]);
            }
        }
        lemma_runs_are_declared(front);
        assert(runs.drop_last() =~= declaration_runs(front));
        assert(is_parsed_declaration(declarations[declarations.len() - 1]));
        lemma_written_declaration_reads(declarations.last());
        assert(front.push(declarations.last()) =~= declarations);
    }
}

/// The declarations of a rule as tokens hold no closing brace.
proof fn lemma_joined_declarations_plain(declarations: Seq<SpecDeclaration>)
    requires
        are_parsed_declarations(declarations),
    ensures
        forall|k: int|
            0 <= k < declarations_tokens(declarations).len() ==> #[trigger] declarations_tokens(
                declarations,
            )[k] != SpecLexed::Token(Token::BraceClose),
    decreases declarations.len(),
{
    let runs = declaration_runs(declarations);
    if declarations.len() == 1 {
        assert(is_parsed_declaration(declarations[0]));
        lemma_written_declaration_reads(declarations[0]);
    } else if declarations.len() > 1 {
        let front = declarations.drop_last();
        assert(are_parsed_declarations(front)) by {
            assert forall|i: int| 0 <= i < front.len() implies is_parsed_declaration(
                #[trigger] front[i],
            ) by {
                assert(front[i] == declarations[i]);
            }
        }
        lemma_joined_declarations_plain(front);
        assert(runs.drop_last() =~= declaration_runs(front));
        assert(is_parsed_declaration(declarations[declarations.len() - 1]));
        lemma_written_declaration_reads(declarations.last());
    }
}

/// The declarations of a rule are read back from their tokens.
pub proof fn lemma_written_declarations_read(declarations: Seq<SpecDeclaration>)
    requires
        are_parsed_declarations(declarations),
    ensures
        declarations_of(declarations_tokens(declarations)) == declarations,
{
    let runs = declaration_runs(declarations);
    let semicolon = SpecLexed::Token(Token::SemiColon);
    if declarations.len() == 0 {
        assert(declarations =~= Seq::<SpecDeclaration>::empty());
        assert(declarations_tokens(declarations) =~= Seq::<SpecLexed>::empty());
        let groups = pieces(Seq::<SpecLexed>::empty(), semicolon);
        assert(groups =~= seq![Seq::<SpecLexed>::empty()]);
        assert(declaration_of(groups.last()) is None);
        assert(groups.drop_last() =~= Seq::<Seq<SpecLexed>>::empty());
        assert(declared(groups.drop_last()) =~= Seq::<SpecDeclaration>::empty());
        assert(declared(groups) =~= Seq::<SpecDeclaration>::empty());
    } else {
        assert forall|i: int, j: int|
            0 <= i < runs.len() && 0 <= j < runs[i].len() implies runs[i][j] != semicolon by {
            assert(is_parsed_declaration(declarations[i]));
            lemma_written_declaration_reads(declarations[i]);
        }
        lemma_pieces_of_joined(runs, semicolon);
        lemma_runs_are_declared(declarations);
    }
}

/// Every declaration that the parser reads is of the form that
/// [`is_parsed_declaration`] tells.
pub proof fn lemma_read_declarations_are_parsed(tokens: Seq<SpecLexed>)
    ensures
        are_parsed_declarations(declarations_of(tokens)),
{
    lemma_declared_are_parsed(pieces(tokens, SpecLexed::Token(Token::SemiColon)));
}

/// The declarations that are read from groups are of the parser's form.
proof fn lemma_declared_are_parsed(groups: Seq<Seq<SpecLexed>>)
    ensures
        are_parsed_declarations(declared(groups)),
    decreases groups.len(),
{
    if groups.len() > 0 {
        lemma_declared_are_parsed(groups.drop_last());
    }
}

/// A rule as tokens: its selector chains, and its declarations between
/// braces.
pub open spec fn rule_tokens(rule: SpecRule) -> Seq<SpecLexed> {
    selectors_tokens(rule.selectors) + seq![SpecLexed::Token(Token::BraceOpen)]
        + declarations_tokens(rule.declarations) + seq![SpecLexed::Token(Token::BraceClose)]
}

/// `rule` is one as the parser builds them: it has at least one selector
/// chain, and its chains and its declarations are of the parser's making.
pub open spec fn is_parsed_rule(rule: SpecRule) -> bool {
    &&& rule.selectors.len() >= 1
    &&& are_parsed_selectors(rule.selectors)
    &&& are_parsed_declarations(rule.declarations)
}

/// Outside of a block, tokens that hold no `{` are gathered.
proof fn lemma_splitter_outside(tokens: Seq<SpecLexed>, more: Seq<SpecLexed>)
    requires
        splitter(tokens).open is None,
        forall|k: int| 0 <= k < more.len() ==> more[k] != SpecLexed::Token(Token::BraceOpen),
    ensures
        splitter(tokens + more) == (SpecSplitter {
            blocks: splitter(tokens).blocks,
            open: None,
            buf: splitter(tokens).buf + more,
        }),
    decreases more.len(),
{
    if more.len() == 0 {
        assert(tokens + more =~= tokens);
        assert(splitter(tokens).buf + more =~= splitter(tokens).buf);
    } else {
        let front = more.drop_last();
        lemma_splitter_outside(tokens, front);
        assert((tokens + more).drop_last() =~= tokens + front);
        assert((splitter(tokens).buf + front).push(more.last()) =~= splitter(tokens).buf + more);
    }
}

/// Inside of a block, tokens that hold no `}` are gathered.
proof fn lemma_splitter_inside(tokens: Seq<SpecLexed>, more: Seq<SpecLexed>)
    requires
        splitter(tokens).open is Some,
        forall|k: int| 0 <= k < more.len() ==> more[k] != SpecLexed::Token(Token::BraceClose),
    ensures
        splitter(tokens + more) == (SpecSplitter {
            blocks: splitter(tokens).blocks,
            open: splitter(tokens).open,
            buf: splitter(tokens).buf + more,
        }),
    decreases more.len(),
{
    if more.len() == 0 {
        assert(tokens + more =~= tokens);
        assert(splitter(tokens).buf + more =~= splitter(tokens).buf);
    } else {
        let front = more.drop_last();
        lemma_splitter_inside(tokens, front);
        assert((tokens + more).drop_last() =~= tokens + front);
        assert((splitter(tokens).buf + front).push(more.last()) =~= splitter(tokens).buf + more);
    }
}

/// One block between braces, behind tokens that hold no `{` and around
/// tokens that hold no `}`, is split off as it stands.
proof fn lemma_one_block(selectors: Seq<SpecLexed>, declarations: Seq<SpecLexed>)
    requires
        forall|k: int|
            0 <= k < selectors.len() ==> selectors[k] != SpecLexed::Token(Token::BraceOpen),
        forall|k: int|
            0 <= k < declarations.len() ==> declarations[k] != SpecLexed::Token(
                Token::BraceClose,
            ),
    ensures
        blocks_of(
            selectors + seq![SpecLexed::Token(Token::BraceOpen)] + declarations + seq![
                SpecLexed::Token(Token::BraceClose),
            ],
        ) == seq![(selectors, declarations)],
{
    let nothing = Seq::<SpecLexed>::empty();
    let opened = selectors + seq![SpecLexed::Token(Token::BraceOpen)];
    let filled = opened + declarations;
    let closed = filled + seq![SpecLexed::Token(Token::BraceClose)];
    lemma_splitter_outside(nothing, selectors);
    assert(nothing + selectors =~= selectors);
    assert(splitter(selectors).buf =~= selectors);
    assert(opened.drop_last() =~= selectors);
    assert(splitter(opened) == (SpecSplitter {
        blocks: Seq::empty(),
        open: Some(selectors),
        buf: Seq::empty(),
    }));
    lemma_splitter_inside(opened, declarations);
    assert(splitter(filled).buf =~= declarations);
    assert(closed.drop_last() =~= filled);
    assert(splitter(closed).blocks =~= seq![(selectors, declarations)]);
    assert(splitter(closed).open is None);
}

/// A rule of the parser's making is read back from its tokens: they
/// parse to that one rule.
pub proof fn lemma_written_rule_reads(rule: SpecRule)
    requires
        is_parsed_rule(rule),
    ensures
        rules_of(rule_tokens(rule)) == Ok::<Seq<SpecRule>, SpecErrorKind>(seq![rule]),
{
    let selectors = selectors_tokens(rule.selectors);
    let declarations = declarations_tokens(rule.declarations);
    lemma_joined_selectors_plain(rule.selectors);
    lemma_joined_declarations_plain(rule.declarations);
    lemma_one_block(selectors, declarations);
    lemma_written_selectors_read(rule.selectors);
    lemma_written_declarations_read(rule.declarations);
    let blocks = seq![(selectors, declarations)];
    assert(blocks.drop_last() =~= Seq::<SpecBlock>::empty());
    assert(ruled(blocks.drop_last()) == Ok::<Seq<SpecRule>, SpecErrorKind>(Seq::empty()));
    assert(Seq::<SpecRule>::empty().push(rule) =~= seq![rule]);
}

/// The rules that are read from blocks are of the parser's form.
proof fn lemma_ruled_are_parsed(blocks: Seq<SpecBlock>)
    requires
        ruled(blocks) is Ok,
    ensures
        forall|i: int|
            0 <= i < ruled(blocks)->Ok_0.len() ==> is_parsed_rule(ruled(blocks)->Ok_0[i]),
    decreases blocks.len(),
{
    if blocks.len() > 0 {
        lemma_ruled_are_parsed(blocks.drop_last());
        lemma_read_selectors_are_parsed(blocks.last().0);
        lemma_read_declarations_are_parsed(blocks.last().1);
    }
}

/// Every rule that the parser reads is of the form that
/// [`is_parsed_rule`] tells.
pub proof fn lemma_read_rules_are_parsed(tokens: Seq<SpecLexed>)
    requires
        rules_of(tokens) is Ok,
    ensures
        forall|i: int|
            0 <= i < rules_of(tokens)->Ok_0.len() ==> is_parsed_rule(rules_of(tokens)->Ok_0[i]),
{
    lemma_ruled_are_parsed(blocks_of(tokens));
}

/// Parsing what was written of a parsed rule gives the rule again: each
/// rule that a token stream parses to, written down as tokens, parses to
/// that one rule.
pub proof fn lemma_parsed_rule_is_read_back(tokens: Seq<SpecLexed>, i: int)
    requires
        rules_of(tokens) is Ok,
        0 <= i < rules_of(tokens)->Ok_0.len(),
    ensures
        rules_of(rule_tokens(rules_of(tokens)->Ok_0[i])) == Ok::<Seq<SpecRule>, SpecErrorKind>(
            seq![rules_of(tokens)->Ok_0[i]],
        ),
{
    lemma_read_rules_are_parsed(tokens);
    lemma_written_rule_reads(rules_of(tokens)->Ok_0[i]);
}

/// Appends one token.
fn put(out: &mut Vec<Lexed>, token: Lexed)
    ensures
        final(out).deep_view() == old(out).deep_view().push(token.deep_view()),
{
    let ghost before = out.deep_view();
    out.push(token);
    assert(out.deep_view() =~= before.push(token.deep_view()));
}

/// Appends each of `names` behind the symbol `mark`.
fn write_names(mark: Token, names: &Vec<String>, out: &mut Vec<Lexed>)
    ensures
        final(out).deep_view() == old(out).deep_view() + names_tokens(mark, names.deep_view()),
{
    let ghost before = out.deep_view();
    let ghost all = names.deep_view();
    let mut i: usize = 0;
    proof {
        assert(all.take(0) =~= Seq::<Seq<char>>::empty());
        assert(before + names_tokens(mark, all.take(0)) =~= before);
    }
    while i < names.len()
        invariant
            0 <= i <= names.len(),
            all == names.deep_view(),
            out.deep_view() == before + names_tokens(mark, all.take(i as int)),
        decreases names.len() - i,
    {
        let ghost done = names_tokens(mark, all.take(i as int));
        proof {
            assert(all.take(i + 1).drop_last() =~= all.take(i as int));
            assert(all.take(i + 1).last() == names[i as int]@);
        }
        put(out, Lexed::Token(mark));
        put(out, Lexed::Identifier(names[i].clone()));
        proof {
            assert(out.deep_view() =~= before + (done + seq![
                SpecLexed::Token(mark),
                SpecLexed::Identifier(names[i as int]@),
            ]));
        }
        i += 1;
    }
    proof {
        assert(all.take(i as int) =~= all);
    }
}

/// Appends a simple selector.
fn write_identifier(identifier: &Option<Identifier>, out: &mut Vec<Lexed>)
    ensures
        final(out).deep_view() == old(out).deep_view() + identifier_tokens(identifier.deep_view()),
{
    let ghost before = out.deep_view();
    match identifier {
        None => {
            assert(before + Seq::<SpecLexed>::empty() =~= before);
        },
        Some(i) => {
            match &i.i_type {
                IdentifierType::Simple { tag_name: Some(name) } => {
                    put(out, Lexed::Identifier(name.clone()));
                },
                IdentifierType::Everything => {
                    put(out, Lexed::Token(Token::Star));
                },
                _ => {},
            }
            let ghost head = head_tokens(i.i_type.deep_view());
            assert(out.deep_view() =~= before + head);
            write_names(Token::Hash, &i.id, out);
            write_names(Token::Dot, &i.class, out);
            proof {
                assert(out.deep_view() =~= before + (head + names_tokens(
                    Token::Hash,
                    i.id.deep_view(),
                ) + names_tokens(Token::Dot, i.class.deep_view())));
            }
        },
    }
}

/// Appends what stands between a simple selector and the next selector
/// of its chain.
fn write_link(
    identifier: &Option<Identifier>,
    child_type: SelectorChildType,
    out: &mut Vec<Lexed>,
)
    ensures
        final(out).deep_view() == old(out).deep_view() + link_tokens(
            identifier.deep_view(),
            child_type,
        ),
{
    let ghost before = out.deep_view();
    match child_type {
        SelectorChildType::Child => {
            put(out, Lexed::Token(Token::GT));
        },
        SelectorChildType::GeneralSibling => {
            put(out, Lexed::Token(Token::Tilde));
        },
        SelectorChildType::AdjacentSibling => {
            put(out, Lexed::Token(Token::Plus));
        },
        SelectorChildType::Descendant => {
            let bare = match identifier {
                None => Some(false),
                Some(i) => {
                    if i.id.len() > 0 || i.class.len() > 0 {
                        None
                    } else {
                        match &i.i_type {
                            IdentifierType::Simple { tag_name: Some(_) } => None,
                            IdentifierType::Everything => Some(true),
                            _ => Some(false),
                        }
                    }
                },
            };
            match bare {
                None => {},
                Some(true) => {
                    put(out, Lexed::Token(Token::Colon));
                    put(out, Lexed::Identifier("x".to_owned()));
                },
                Some(false) => {
                    put(out, Lexed::Number(StyleNumber::zero()));
                },
            }
        },
    }
    assert(out.deep_view() =~= before + link_tokens(identifier.deep_view(), child_type));
}

/// Appends a selector chain.
pub fn write_selector(selector: &Selector, out: &mut Vec<Lexed>)
    ensures
        final(out).deep_view() == old(out).deep_view() + selector_tokens(selector.deep_view()),
{
    let ghost goal = out.deep_view() + selector_tokens(selector.deep_view());
    let mut at: &Selector = selector;
    loop
        invariant_except_break
            out.deep_view() + selector_tokens(at.deep_view()) == goal,
        ensures
            out.deep_view() == goal,
        decreases at,
    {
        let ghost before = out.deep_view();
        write_identifier(&at.identifier, out);
        match &at.child {
            None => {
                assert(out.deep_view() =~= before + selector_tokens(at.deep_view()));
                break ;
            },
            Some(next) => {
                write_link(&at.identifier, next.child_type, out);
                proof {
                    assert(out.deep_view() + selector_tokens(next.selector.deep_view()) =~= before
                        + (identifier_tokens(at.identifier.deep_view()) + (link_tokens(
                        at.identifier.deep_view(),
                        next.child_type,
                    ) + selector_tokens(next.selector.deep_view()))));
                }
                at = &next.selector;
            },
        }
    }
}

/// Appends the selector chains of a rule, with a comma between each two.
pub fn write_selectors(selectors: &Vec<Selector>, out: &mut Vec<Lexed>)
    ensures
        final(out).deep_view() == old(out).deep_view() + selectors_tokens(selectors.deep_view()),
{
    let ghost before = out.deep_view();
    let ghost runs = selector_runs(selectors.deep_view());
    let ghost comma = SpecLexed::Token(Token::Comma);
    let mut i: usize = 0;
    proof {
        assert(before + joined(runs.take(0), comma) =~= before);
    }
    while i < selectors.len()
        invariant
            0 <= i <= selectors.len(),
            runs == selector_runs(selectors.deep_view()),
            comma == SpecLexed::Token(Token::Comma),
            out.deep_view() == before + joined(runs.take(i as int), comma),
        decreases selectors.len() - i,
    {
        let ghost done = joined(runs.take(i as int), comma);
        proof {
            assert(runs.take(i + 1).drop_last() =~= runs.take(i as int));
            assert(runs.take(i + 1).last() == selector_tokens(selectors[i as int].deep_view()));
        }
        if i > 0 {
            put(out, Lexed::Token(Token::Comma));
        }
        write_selector(&selectors[i], out);
        proof {
            if i > 0 {
                assert(out.deep_view() =~= before + (done.push(comma) + runs[i as int]));
            } else {
                assert(done =~= Seq::<SpecLexed>::empty());
                assert(out.deep_view() =~= before + runs[i as int]);
            }
        }
        i += 1;
    }
    proof {
        assert(runs.take(i as int) =~= runs);
    }
}

/// Appends a declaration.
pub fn write_declaration(declaration: &Declaration, out: &mut Vec<Lexed>)
    ensures
        final(out).deep_view() == old(out).deep_view() + declaration_tokens(
            declaration.deep_view(),
        ),
{
    let ghost before = out.deep_view();
    put(out, Lexed::Identifier(declaration.name.clone()));
    put(out, Lexed::Token(Token::Colon));
    match &declaration.value {
        Value::Keyword(word) => {
            put(out, Lexed::Identifier(word.clone()));
        },
        Value::Length(number, unit) => {
            put(out, Lexed::Number(number.clone()));
            put(out, Lexed::Token(Token::Px));
        },
        Value::Color { .. } => {},
    }
    assert(out.deep_view() =~= before + declaration_tokens(declaration.deep_view()));
}

/// Appends the declarations of a rule, with a semicolon between each
/// two.
pub fn write_declarations(declarations: &Vec<Declaration>, out: &mut Vec<Lexed>)
    ensures
        final(out).deep_view() == old(out).deep_view() + declarations_tokens(
            declarations.deep_view(),
        ),
{
    let ghost before = out.deep_view();
    let ghost runs = declaration_runs(declarations.deep_view());
    let ghost semicolon = SpecLexed::Token(Token::SemiColon);
    let mut i: usize = 0;
    proof {
        assert(before + joined(runs.take(0), semicolon) =~= before);
    }
    while i < declarations.len()
        invariant
            0 <= i <= declarations.len(),
            runs == declaration_runs(declarations.deep_view()),
            semicolon == SpecLexed::Token(Token::SemiColon),
            out.deep_view() == before + joined(runs.take(i as int), semicolon),
        decreases declarations.len() - i,
    {
        let ghost done = joined(runs.take(i as int), semicolon);
        proof {
            assert(runs.take(i + 1).drop_last() =~= runs.take(i as int));
            assert(runs.take(i + 1).last() == declaration_tokens(
                declarations[i as int].deep_view(),
            ));
        }
        if i > 0 {
            put(out, Lexed::Token(Token::SemiColon));
        }
        write_declaration(&declarations[i], out);
        proof {
            if i > 0 {
                assert(out.deep_view() =~= before + (done.push(semicolon) + runs[i as int]));
            } else {
                assert(done =~= Seq::<SpecLexed>::empty());
                assert(out.deep_view() =~= before + runs[i as int]);
            }
        }
        i += 1;
    }
    proof {
        assert(runs.take(i as int) =~= runs);
    }
}

/// Writes a rule down as tokens: its selector chains with commas between
/// them, and its declarations with semicolons between them in braces.
/// Of a rule that the parser made, the parser reads that rule back from
/// these tokens.
pub fn write_rule(rule: &Rule) -> (tokens: Vec<Lexed>)
    ensures
        tokens.deep_view() == rule_tokens(rule.deep_view()),
{
    let mut out: Vec<Lexed> = Vec::new();
    assert(out.deep_view() =~= Seq::<SpecLexed>::empty());
    write_selectors(&rule.selectors, &mut out);
    put(&mut out, Lexed::Token(Token::BraceOpen));
    write_declarations(&rule.declarations, &mut out);
    put(&mut out, Lexed::Token(Token::BraceClose));
    assert(out.deep_view() =~= rule_tokens(rule.deep_view()));
    out
}

} // verus!
