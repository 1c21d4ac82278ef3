//! The stylesheet parser: from tokens to rules, each a list of selector
//! chains and a list of typed declarations.

use crate::css::lexer::{Lexed, SpecLexed, StyleNumber, Token};
use crate::helper::{lift, pieces, Error, ErrorKind, SpecErrorKind, ValueFault, MAX_DEPTH};
use vstd::prelude::*;
use vstd::slice::slice_subrange;

verus! {

/// The unit of a length.
#[derive(Debug, Clone, Copy, PartialEq, Eq, Structural)]
pub enum Unit {
    Px,
}

/// The model of a [`Value`].
pub enum SpecValue {
    Keyword(Seq<char>),
    Length(Seq<char>, Unit),
    Color { r: u8, g: u8, b: u8, a: u8 },
}

/// The value of a declaration.
#[derive(Debug, PartialEq, Eq)]
pub enum Value {
    Keyword(String),
    Length(StyleNumber, Unit),
    Color { r: u8, g: u8, b: u8, a: u8 },
}

impl DeepView for Value {
    type V = SpecValue;

    open spec fn deep_view(&self) -> SpecValue {
        match self {
            Value::Keyword(s) => SpecValue::Keyword(s@),
            Value::Length(n, unit) => SpecValue::Length(n@, *unit),
            Value::Color { r, g, b, a } => SpecValue::Color { r: *r, g: *g, b: *b, a: *a },
        }
    }
}

/// The model of a [`Declaration`].
pub struct SpecDeclaration {
    pub name: Seq<char>,
    pub value: SpecValue,
}

/// A property with its value.
#[derive(Debug, PartialEq, Eq)]
pub struct Declaration {
    pub name: String,
    pub value: Value,
}

impl DeepView for Declaration {
    type V = SpecDeclaration;

    open spec fn deep_view(&self) -> SpecDeclaration {
        SpecDeclaration { name: self.name@, value: self.value.deep_view() }
    }
}

/// The keyword that the tokens of a value begin with.
pub open spec fn keyword_of(tokens: Seq<SpecLexed>) -> Result<SpecValue, SpecErrorKind> {
    if tokens.len() == 0 {
        Err(SpecErrorKind::MalformedValue(ValueFault::TooShort))
    } else {
        match tokens[0] {
            SpecLexed::Identifier(word) => Ok(SpecValue::Keyword(word)),
            _ => Err(SpecErrorKind::MalformedValue(ValueFault::NotAKeyword)),
        }
    }
}

/// The length that the tokens of a value begin with: a number and its
/// unit.
pub open spec fn length_of(tokens: Seq<SpecLexed>) -> Result<SpecValue, SpecErrorKind> {
    if tokens.len() <= 1 {
        Err(SpecErrorKind::MalformedValue(ValueFault::TooShort))
    } else {
        match tokens[0] {
            SpecLexed::Number(number) => if tokens[1] == SpecLexed::Token(Token::Px) {
                Ok(SpecValue::Length(number, Unit::Px))
            } else {
                Err(SpecErrorKind::MalformedValue(ValueFault::UnknownUnit))
            },
            _ => Err(SpecErrorKind::MalformedValue(ValueFault::NotANumber)),
        }
    }
}

/// Reads a keyword off the front of the tokens of a value.
pub fn parse_keyword(lexed: &[Lexed]) -> (res: Result<Value, Error>)
    ensures
        lift(res) == keyword_of(lexed.deep_view()),
{
    if lexed.len() == 0 {
        return Err(Error(ErrorKind::MalformedValue(ValueFault::TooShort)));
    }
    assert(lexed.deep_view()[0] == lexed@[0].deep_view());
    match &lexed[0] {
        Lexed::Identifier(word) => Ok(Value::Keyword(word.clone())),
        _ => Err(Error(ErrorKind::MalformedValue(ValueFault::NotAKeyword))),
    }
}

/// Reads a length off the front of the tokens of a value.
pub fn parse_length(lexed: &[Lexed]) -> (res: Result<Value, Error>)
    ensures
        lift(res) == length_of(lexed.deep_view()),
{
    if lexed.len() <= 1 {
        return Err(Error(ErrorKind::MalformedValue(ValueFault::TooShort)));
    }
    assert(lexed.deep_view()[0] == lexed@[0].deep_view());
    assert(lexed.deep_view()[1] == lexed@[1].deep_view());
    let number = match &lexed[0] {
        Lexed::Number(number) => number.clone(),
        _ => {
            return Err(Error(ErrorKind::MalformedValue(ValueFault::NotANumber)));
        },
    };
    match &lexed[1] {
        Lexed::Token(Token::Px) => Ok(Value::Length(number, Unit::Px)),
        _ => Err(Error(ErrorKind::MalformedValue(ValueFault::UnknownUnit))),
    }
}

/// Cuts the tokens at each occurrence of the symbol `with`. Never fails.
pub fn split(lexed: Vec<Lexed>, with: &Token) -> (res: Result<Vec<Vec<Lexed>>, Error>)
    ensures
        res is Ok,
        res->Ok_0.deep_view() == pieces(lexed.deep_view(), SpecLexed::Token(*with)),
{
    let ghost tokens = lexed.deep_view();
    let ghost sep = SpecLexed::Token(*with);
    let mut splitted: Vec<Vec<Lexed>> = Vec::new();
    let mut buf: Vec<Lexed> = Vec::new();
    let mut i: usize = 0;
    proof {
        assert(tokens.take(0) =~= Seq::<SpecLexed>::empty());
        assert(buf.deep_view() =~= Seq::<SpecLexed>::empty());
        assert(splitted.deep_view().push(buf.deep_view()) =~= pieces(tokens.take(0), sep));
    }
    while i < lexed.len()
        invariant
            0 <= i <= lexed.len(),
            tokens == lexed.deep_view(),
            sep == SpecLexed::Token(*with),
            pieces(tokens.take(i as int), sep) == splitted.deep_view().push(buf.deep_view()),
        decreases lexed.len() - i,
    {
        let ghost done = splitted.deep_view();
        let ghost open = buf.deep_view();
        proof {
            assert(tokens.take(i + 1).drop_last() =~= tokens.take(i as int));
            assert(tokens.take(i + 1).last() == lexed[i as int].deep_view());
        }
        let cut = match &lexed[i] {
            Lexed::Token(token) => *token == *with,
            _ => false,
        };
        if cut {
            splitted.push(buf);
            buf = Vec::new();
            proof {
                assert(splitted.deep_view() =~= done.push(open));
                assert(buf.deep_view() =~= Seq::<SpecLexed>::empty());
            }
        } else {
            buf.push(lexed[i].clone());
            proof {
                assert(buf.deep_view() =~= open.push(tokens[i as int]));
                assert(done.push(open).update(done.len() as int, open.push(tokens[i as int]))
                    =~= done.push(buf.deep_view()));
            }
        }
        i += 1;
    }
    proof {
        assert(tokens.take(i as int) =~= tokens);
    }
    let ghost done = splitted.deep_view();
    let ghost open = buf.deep_view();
    splitted.push(buf);
    assert(splitted.deep_view() =~= done.push(open));
    Ok(splitted)
}

/// The value of the property `name` that the tokens spell: a length for
/// `width`, a keyword for `display`, nothing for any other property.
pub open spec fn value_of(name: Seq<char>, tokens: Seq<SpecLexed>) -> Option<SpecValue> {
    if name == "width"@ {
        match length_of(tokens) {
            Ok(value) => Some(value),
            Err(_) => None,
        }
    } else if name == "display"@ {
        match keyword_of(tokens) {
            Ok(value) => Some(value),
            Err(_) => None,
        }
    } else {
        None
    }
}

/// The declaration that a group of tokens spells: an identifier, a colon,
/// and a value of the kind of the property. Any other group spells none.
pub open spec fn declaration_of(group: Seq<SpecLexed>) -> Option<SpecDeclaration> {
    if group.len() >= 3 && group[1] == SpecLexed::Token(Token::Colon) {
        match group[0] {
            SpecLexed::Identifier(name) => match value_of(name, group.skip(2)) {
                Some(value) => Some(SpecDeclaration { name, value }),
                None => None,
            },
            _ => None,
        }
    } else {
        None
    }
}

/// The declarations that the groups spell, in order; a group that spells
/// none is passed over.
pub open spec fn declared(groups: Seq<Seq<SpecLexed>>) -> Seq<SpecDeclaration>
    decreases groups.len(),
{
    if groups.len() == 0 {
        Seq::empty()
    } else {
        match declaration_of(groups.last()) {
            Some(declaration) => declared(groups.drop_last()).push(declaration),
            None => declared(groups.drop_last()),
        }
    }
}

/// The declarations of a token run: it is cut at each `;`, and each group
/// is read by itself.
pub open spec fn declarations_of(tokens: Seq<SpecLexed>) -> Seq<SpecDeclaration> {
    declared(pieces(tokens, SpecLexed::Token(Token::SemiColon)))
}

/// Reads one group of tokens as a declaration.
pub fn read_declaration(group: &Vec<Lexed>) -> (r: Option<Declaration>)
    ensures
        r.deep_view() == declaration_of(group.deep_view()),
{
    if group.len() <= 2 {
        return None;
    }
    assert(group.deep_view()[0] == group[0].deep_view());
    assert(group.deep_view()[1] == group[1].deep_view());
    match &group[1] {
        Lexed::Token(Token::Colon) => {},
        _ => {
            return None;
        },
    }
    let name = match &group[0] {
        Lexed::Identifier(name) => name.clone(),
        _ => {
            return None;
        },
    };
    let rest = slice_subrange(group.as_slice(), 2, group.len());
    assert(rest.deep_view() =~= group.deep_view().skip(2));
    let value = if name == "width".to_owned() {
        parse_length(rest)
    } else if name == "display".to_owned() {
        parse_keyword(rest)
    } else {
        return None;
    };
    match value {
        Ok(value) => Some(Declaration { name, value }),
        Err(_) => None,
    }
}

/// Reads the declarations of a token run. A group that is no declaration
/// of a known property is dropped; this never fails.
pub fn parse_declarations(lexed: Vec<Lexed>) -> (res: Result<Vec<Declaration>, Error>)
    ensures
        res is Ok,
        res->Ok_0.deep_view() == declarations_of(lexed.deep_view()),
{
    let splitted = match split(lexed, &Token::SemiColon) {
        Ok(groups) => groups,
        Err(e) => {
            return Err(e);
        },
    };
    let ghost groups = splitted.deep_view();
    let mut declarations: Vec<Declaration> = Vec::new();
    let mut i: usize = 0;
    proof {
        assert(groups.take(0) =~= Seq::<Seq<SpecLexed>>::empty());
        assert(declarations.deep_view() =~= Seq::<SpecDeclaration>::empty());
    }
    while i < splitted.len()
        invariant
            0 <= i <= splitted.len(),
            groups == splitted.deep_view(),
            declarations.deep_view() == declared(groups.take(i as int)),
        decreases splitted.len() - i,
    {
        let ghost done = declarations.deep_view();
        proof {
            assert(groups.take(i + 1).drop_last() =~= groups.take(i as int));
            assert(groups.take(i + 1).last() == splitted[i as int].deep_view());
        }
        match read_declaration(&splitted[i]) {
            Some(declaration) => {
                declarations.push(declaration);
                assert(declarations.deep_view() =~= done.push(declaration.deep_view()));
            },
            None => {},
        }
        i += 1;
    }
    proof {
        assert(groups.take(i as int) =~= groups);
    }
    Ok(declarations)
}

/// How a selector stands to the selector before it in a chain.
#[derive(Debug, Clone, Copy, PartialEq, Eq, Structural)]
pub enum SelectorChildType {
    /// `a b`
    Descendant,
    /// `a > b`
    Child,
    /// `a ~ b`
    GeneralSibling,
    /// `a + b`
    AdjacentSibling,
}

/// A state of an element that a selector asks for.
#[derive(Debug, Clone, Copy, PartialEq, Eq, Structural)]
pub enum PseudoType {
    FirstChild,
    LastChild,
}

/// A pseudo-class: the element is in the state, or is not.
#[derive(Debug, Clone, Copy, PartialEq, Eq, Structural)]
pub enum Pseudo {
    Match(PseudoType),
    Not(PseudoType),
}

/// The model of an [`IdentifierType`].
pub enum SpecIdentifierType {
    Simple { tag_name: Option<Seq<char>> },
    Everything,
    Any,
}

/// What a simple selector names: a tag or none, every element (`*`), or
/// nothing yet.
#[derive(Debug, PartialEq, Eq)]
pub enum IdentifierType {
    Simple { tag_name: Option<String> },
    Everything,
    Any,
}

impl DeepView for IdentifierType {
    type V = SpecIdentifierType;

    open spec fn deep_view(&self) -> SpecIdentifierType {
        match self {
            IdentifierType::Simple { tag_name } => SpecIdentifierType::Simple {
                tag_name: tag_name.deep_view(),
            },
            IdentifierType::Everything => SpecIdentifierType::Everything,
            IdentifierType::Any => SpecIdentifierType::Any,
        }
    }
}

/// The model of an [`Identifier`].
pub struct SpecIdentifier {
    pub id: Seq<Seq<char>>,
    pub class: Seq<Seq<char>>,
    pub i_type: SpecIdentifierType,
}

/// A simple selector: what it names, and the ids and classes it asks
/// for, each once, in the order in which they first came.
#[derive(Debug, PartialEq, Eq)]
pub struct Identifier {
    pub id: Vec<String>,
    pub class: Vec<String>,
    pub i_type: IdentifierType,
}

impl DeepView for Identifier {
    type V = SpecIdentifier;

    open spec fn deep_view(&self) -> SpecIdentifier {
        SpecIdentifier {
            id: self.id.deep_view(),
            class: self.class.deep_view(),
            i_type: self.i_type.deep_view(),
        }
    }
}

/// The model of a [`SelectorChild`].
pub struct SpecSelectorChild {
    pub selector: SpecSelector,
    pub child_type: SelectorChildType,
}

/// The model of a [`Selector`].
pub struct SpecSelector {
    pub identifier: Option<SpecIdentifier>,
    pub pseudo: Seq<Pseudo>,
    pub child: Option<Box<SpecSelectorChild>>,
}

/// The next selector of a chain, and how it stands to the one before it.
#[derive(Debug, PartialEq, Eq)]
pub struct SelectorChild {
    pub selector: Selector,
    pub child_type: SelectorChildType,
}

/// A selector chain: a simple selector, and the rest of the chain.
#[derive(Debug, PartialEq, Eq)]
pub struct Selector {
    pub identifier: Option<Identifier>,
    pub pseudo: Vec<Pseudo>,
    pub child: Option<Box<SelectorChild>>,
}

/// The model of a selector chain.
pub open spec fn selector_view(selector: Selector) -> SpecSelector
    decreases selector,
{
    SpecSelector {
        identifier: selector.identifier.deep_view(),
        pseudo: selector.pseudo@,
        child: match selector.child {
            Some(next) => Some(
                Box::new(
                    SpecSelectorChild {
                        selector: selector_view(next.selector),
                        child_type: next.child_type,
                    },
                ),
            ),
            None => None,
        },
    }
}

impl DeepView for Selector {
    type V = SpecSelector;

    open spec fn deep_view(&self) -> SpecSelector {
        selector_view(*self)
    }
}

/// `names` with `name` behind it, unless `name` is in it already.
pub open spec fn with_name(names: Seq<Seq<char>>, name: Seq<char>) -> Seq<Seq<char>> {
    if names.contains(name) {
        names
    } else {
        names.push(name)
    }
}

/// The simple selector of the tag `name`.
pub open spec fn simple(name: Seq<char>) -> SpecIdentifier {
    SpecIdentifier {
        id: Seq::empty(),
        class: Seq::empty(),
        i_type: SpecIdentifierType::Simple { tag_name: Some(name) },
    }
}

/// The simple selector `*`.
pub open spec fn everything() -> SpecIdentifier {
    SpecIdentifier { id: Seq::empty(), class: Seq::empty(), i_type: SpecIdentifierType::Everything }
}

/// The simple selector that a selector has before its first tag, id or
/// class: one that names no tag.
pub open spec fn unnamed() -> SpecIdentifier {
    SpecIdentifier {
        id: Seq::empty(),
        class: Seq::empty(),
        i_type: SpecIdentifierType::Simple { tag_name: None },
    }
}

/// `identifier` with the id `name` added to it.
pub open spec fn with_id(identifier: Option<SpecIdentifier>, name: Seq<char>) -> SpecIdentifier {
    let base = match identifier {
        Some(identifier) => identifier,
        None => unnamed(),
    };
    SpecIdentifier { id: with_name(base.id, name), class: base.class, i_type: base.i_type }
}

/// `identifier` with the class `name` added to it.
pub open spec fn with_class(identifier: Option<SpecIdentifier>, name: Seq<char>) -> SpecIdentifier {
    let base = match identifier {
        Some(identifier) => identifier,
        None => unnamed(),
    };
    SpecIdentifier { id: base.id, class: with_name(base.class, name), i_type: base.i_type }
}

/// The combinator that the symbol before an identifier stands for: none
/// at all means a descendant. Any other symbol stands for none.
pub open spec fn combinator(prev: Option<Token>) -> Option<SelectorChildType> {
    match prev {
        None => Some(SelectorChildType::Descendant),
        Some(Token::GT) => Some(SelectorChildType::Child),
        Some(Token::Tilde) => Some(SelectorChildType::GeneralSibling),
        Some(Token::Plus) => Some(SelectorChildType::AdjacentSibling),
        _ => None,
    }
}

/// The selector chain that the tokens spell from `pos` on. `first` says
/// that no token of this selector was read yet, `prev` is the last symbol
/// since the last identifier, `identifier` is the simple selector as far
/// as it was read, and `depth` selectors stand before this one in the
/// chain.
///
/// An identifier or `*` in front is the simple selector. A later
/// identifier behind `#` or `.` is an id or a class of it; behind `:` or
/// `::` it is passed over; behind a combinator, or behind no symbol, it
/// begins the next selector of the chain, which takes all the tokens
/// that are left. Numbers are passed over.
pub open spec fn selector_from(
    tokens: Seq<SpecLexed>,
    pos: int,
    first: bool,
    prev: Option<Token>,
    identifier: Option<SpecIdentifier>,
    depth: nat,
) -> Result<SpecSelector, SpecErrorKind>
    decreases tokens.len() - pos, (if first {
        0nat
    } else {
        1nat
    }),
{
    if pos < 0 || pos >= tokens.len() {
        Ok(SpecSelector { identifier, pseudo: Seq::empty(), child: None })
    } else {
        match tokens[pos] {
            SpecLexed::String(_) => Err(SpecErrorKind::UnexpectedTokenInSelector(tokens[pos])),
            SpecLexed::Number(_) => selector_from(tokens, pos + 1, false, prev, identifier, depth),
            SpecLexed::Token(token) => if token == Token::Star {
                if first {
                    selector_from(tokens, pos + 1, false, Some(token), Some(everything()), depth)
                } else {
                    Err(SpecErrorKind::UnexpectedTokenInSelector(tokens[pos]))
                }
            } else {
                selector_from(tokens, pos + 1, false, Some(token), identifier, depth)
            },
            SpecLexed::Identifier(name) => if first {
                selector_from(tokens, pos + 1, false, None, Some(simple(name)), depth)
            } else {
                match prev {
                    Some(Token::Hash) => selector_from(
                        tokens,
                        pos + 1,
                        false,
                        None,
                        Some(with_id(identifier, name)),
                        depth,
                    ),
                    Some(Token::Dot) => selector_from(
                        tokens,
                        pos + 1,
                        false,
                        None,
                        Some(with_class(identifier, name)),
                        depth,
                    ),
                    Some(Token::Colon) | Some(Token::DoubleColon) => selector_from(
                        tokens,
                        pos + 1,
                        false,
                        None,
                        identifier,
                        depth,
                    ),
                    _ => match combinator(prev) {
                        None => Err(
                            SpecErrorKind::UnexpectedTokenInSelector(
                                SpecLexed::Token(prev->Some_0),
                            ),
                        ),
                        Some(child_type) => if depth + 1 >= MAX_DEPTH {
                            Err(SpecErrorKind::TooDeep)
                        } else {
                            match selector_from(tokens, pos, true, None, None, depth + 1) {
                                Ok(next) => Ok(
                                    SpecSelector {
                                        identifier,
                                        pseudo: Seq::empty(),
                                        child: Some(
                                            Box::new(
                                                SpecSelectorChild { selector: next, child_type },
                                            ),
                                        ),
                                    },
                                ),
                                Err(e) => Err(e),
                            }
                        },
                    },
                }
            },
        }
    }
}

/// The selector chain that a token run spells.
pub open spec fn selector_of(tokens: Seq<SpecLexed>) -> Result<SpecSelector, SpecErrorKind> {
    selector_from(tokens, 0, true, None, None, 0)
}

/// Decides [`combinator`].
pub fn combinator_of(prev: Option<Token>) -> (r: Option<SelectorChildType>)
    ensures
        r == combinator(prev),
{
    match prev {
        None => Some(SelectorChildType::Descendant),
        Some(Token::GT) => Some(SelectorChildType::Child),
        Some(Token::Tilde) => Some(SelectorChildType::GeneralSibling),
        Some(Token::Plus) => Some(SelectorChildType::AdjacentSibling),
        _ => None,
    }
}

/// Adds `name` to `names`, unless it is there already.
fn add_name(names: &mut Vec<String>, name: String)
    ensures
        final(names).deep_view() == with_name(old(names).deep_view(), name@),
{
    let ghost before = names.deep_view();
    let mut i: usize = 0;
    while i < names.len()
        invariant
            0 <= i <= names.len(),
            before == names.deep_view(),
            forall|k: int| 0 <= k < i ==> before[k] != name@,
        decreases names.len() - i,
    {
        assert(before[i as int] == names[i as int]@);
        if names[i] == name {
            assert(before.contains(name@));
            return ;
        }
        i += 1;
    }
    names.push(name);
    assert(names.deep_view() =~= before.push(name@));
}

/// The simple selector to which an id or a class is added.
fn base_of(identifier: Option<Identifier>) -> (r: Identifier)
    ensures
        r.deep_view() == match identifier.deep_view() {
            Some(identifier) => identifier,
            None => unnamed(),
        },
{
    match identifier {
        Some(identifier) => identifier,
        None => {
            let r = Identifier {
                id: Vec::new(),
                class: Vec::new(),
                i_type: IdentifierType::Simple { tag_name: None },
            };
            assert(r.id.deep_view() =~= Seq::<Seq<char>>::empty());
            assert(r.class.deep_view() =~= Seq::<Seq<char>>::empty());
            r
        },
    }
}

/// Reads the selector chain that begins at `pos`.
fn selector_at(tokens: &Vec<Lexed>, pos: usize, depth: usize) -> (res: Result<Selector, Error>)
    requires
        pos <= tokens.len(),
        depth < MAX_DEPTH,
    ensures
        lift(res) == selector_from(tokens.deep_view(), pos as int, true, None, None, depth as nat),
    decreases tokens.len() - pos,
{
    let ghost stream = tokens.deep_view();
    let ghost goal = selector_from(stream, pos as int, true, None, None, depth as nat);
    let mut identifier: Option<Identifier> = None;
    let mut prev: Option<Token> = None;
    let mut first = true;
    let mut i: usize = pos;
    while i < tokens.len()
        invariant
            pos <= i <= tokens.len(),
            depth < MAX_DEPTH,
            stream == tokens.deep_view(),
            first == (i == pos),
            goal == selector_from(stream, pos as int, true, None, None, depth as nat),
            goal == selector_from(
                stream,
                i as int,
                first,
                prev,
                identifier.deep_view(),
                depth as nat,
            ),
        decreases tokens.len() - i,
    {
        assert(stream[i as int] == tokens[i as int].deep_view());
        match &tokens[i] {
            Lexed::String(_) => {
                return Err(Error(ErrorKind::UnexpectedTokenInSelector(tokens[i].clone())));
            },
            Lexed::Number(_) => {},
            Lexed::Token(token) => {
                if *token == Token::Star {
                    if first {
                        let all = Identifier {
                            id: Vec::new(),
                            class: Vec::new(),
                            i_type: IdentifierType::Everything,
                        };
                        assert(all.id.deep_view() =~= Seq::<Seq<char>>::empty());
                        assert(all.class.deep_view() =~= Seq::<Seq<char>>::empty());
                        identifier = Some(all);
                    } else {
                        return Err(Error(ErrorKind::UnexpectedTokenInSelector(tokens[i].clone())));
                    }
                }
                prev = Some(*token);
            },
            Lexed::Identifier(name) => {
                if first {
                    let tag = Identifier {
                        id: Vec::new(),
                        class: Vec::new(),
                        i_type: IdentifierType::Simple { tag_name: Some(name.clone()) },
                    };
                    assert(tag.id.deep_view() =~= Seq::<Seq<char>>::empty());
                    assert(tag.class.deep_view() =~= Seq::<Seq<char>>::empty());
                    identifier = Some(tag);
                } else {
                    match prev {
                        Some(Token::Hash) => {
                            let mut base = base_of(identifier);
                            add_name(&mut base.id, name.clone());
                            identifier = Some(base);
                        },
                        Some(Token::Dot) => {
                            let mut base = base_of(identifier);
                            add_name(&mut base.class, name.clone());
                            identifier = Some(base);
                        },
                        Some(Token::Colon) | Some(Token::DoubleColon) => {},
                        _ => {
                            match combinator_of(prev) {
                                None => {
                                    let symbol = match prev {
                                        Some(symbol) => symbol,
                                        None => Token::Star,
                                    };
                                    return Err(
                                        Error(
                                            ErrorKind::UnexpectedTokenInSelector(
                                                Lexed::Token(symbol),
                                            ),
                                        ),
                                    );
                                },
                                Some(child_type) => {
                                    if depth + 1 >= MAX_DEPTH {
                                        return Err(Error(ErrorKind::TooDeep));
                                    }
                                    let next = match selector_at(tokens, i, depth + 1) {
                                        Ok(next) => next,
                                        Err(e) => {
                                            return Err(e);
                                        },
                                    };
                                    let chain = Selector {
                                        identifier,
                                        pseudo: Vec::new(),
                                        child: Some(
                                            Box::new(SelectorChild { selector: next, child_type }),
                                        ),
                                    };
                                    assert(chain.pseudo@ =~= Seq::<Pseudo>::empty());
                                    return Ok(chain);
                                },
                            }
                        },
                    }
                }
                prev = None;
            },
        }
        first = false;
        i += 1;
    }
    let last = Selector { identifier, pseudo: Vec::new(), child: None };
    assert(last.pseudo@ =~= Seq::<Pseudo>::empty());
    Ok(last)
}

/// A cursor over the tokens of one selector.
pub struct SelectorParser {
    pub current: usize,
    pub lexed: Vec<Lexed>,
}

impl SelectorParser {
    /// A cursor over no tokens.
    pub fn new() -> (parser: Self)
        ensures
            parser.current == 0,
            parser.lexed@.len() == 0,
    {
        Self { current: 0, lexed: Vec::new() }
    }

    /// Puts the cursor at the front of `lexed`.
    pub fn reset(&mut self, lexed: Vec<Lexed>)
        ensures
            final(self).current == 0,
            final(self).lexed == lexed,
    {
        self.current = 0;
        self.lexed = lexed;
    }

    /// Reads the selector chain that begins at the cursor, and leaves the
    /// cursor behind the last token. On failure the cursor stays. A cursor
    /// behind the last token gives the selector that names nothing.
    pub fn parse_selector(&mut self) -> (res: Result<Selector, Error>)
        ensures
            final(self).lexed == old(self).lexed,
            lift(res) == selector_from(
                old(self).lexed.deep_view(),
                old(self).current as int,
                true,
                None,
                None,
                0,
            ),
            res is Ok ==> final(self).current == vstd::math::max(
                old(self).current as int,
                old(self).lexed.len() as int,
            ),
            res is Err ==> final(self).current == old(self).current,
    {
        if self.current > self.lexed.len() {
            let empty = Selector { identifier: None, pseudo: Vec::new(), child: None };
            assert(empty.pseudo@ =~= Seq::<Pseudo>::empty());
            return Ok(empty);
        }
        match selector_at(&self.lexed, self.current, 0) {
            Ok(selector) => {
                self.current = self.lexed.len();
                Ok(selector)
            },
            Err(e) => Err(e),
        }
    }
}

/// The selector chains that the groups spell, one for each group. The
/// first group that spells none fails the whole.
pub open spec fn selected(groups: Seq<Seq<SpecLexed>>) -> Result<Seq<SpecSelector>, SpecErrorKind>
    decreases groups.len(),
{
    if groups.len() == 0 {
        Ok(Seq::empty())
    } else {
        match selected(groups.drop_last()) {
            Err(e) => Err(e),
            Ok(before) => match selector_of(groups.last()) {
                Ok(selector) => Ok(before.push(selector)),
                Err(e) => Err(e),
            },
        }
    }
}

/// The selector chains of a token run: it is cut at each `,`, and each
/// group is one chain.
pub open spec fn selectors_of(tokens: Seq<SpecLexed>) -> Result<Seq<SpecSelector>, SpecErrorKind> {
    selected(pieces(tokens, SpecLexed::Token(Token::Comma)))
}

/// A failure on a prefix of the groups is the failure of the whole.
pub proof fn lemma_selected_fails(groups: Seq<Seq<SpecLexed>>, n: int)
    requires
        0 <= n <= groups.len(),
        selected(groups.take(n)) is Err,
    ensures
        selected(groups) == selected(groups.take(n)),
    decreases groups.len() - n,
{
    if n < groups.len() {
        assert(groups.take(n + 1).drop_last() =~= groups.take(n));
        lemma_selected_fails(groups, n + 1);
    } else {
        assert(groups.take(n) =~= groups);
    }
}

/// Reads the selector chains of a token run, which commas set apart.
pub fn parse_selectors(lexed: Vec<Lexed>) -> (res: Result<Vec<Selector>, Error>)
    ensures
        lift(res) == selectors_of(lexed.deep_view()),
{
    let ghost tokens = lexed.deep_view();
    let mut comma_splitted = match split(lexed, &Token::Comma) {
        Ok(groups) => groups,
        Err(e) => {
            return Err(e);
        },
    };
    let ghost groups = comma_splitted.deep_view();
    let n = comma_splitted.len();
    let mut selectors: Vec<Selector> = Vec::new();
    let mut selector_parser = SelectorParser::new();
    let mut i: usize = 0;
    proof {
        assert(groups.take(0) =~= Seq::<Seq<SpecLexed>>::empty());
        assert(selectors.deep_view() =~= Seq::<SpecSelector>::empty());
    }
    while i < n
        invariant
            n == comma_splitted.len(),
            0 <= i <= n,
            groups.len() == n,
            tokens == lexed.deep_view(),
            groups == pieces(tokens, SpecLexed::Token(Token::Comma)),
            forall|k: int| i <= k < n ==> groups[k] == (#[trigger] comma_splitted[k]).deep_view(),
            selected(groups.take(i as int)) == Ok::<Seq<SpecSelector>, SpecErrorKind>(
                selectors.deep_view(),
            ),
        decreases n - i,
    {
        let ghost done = selectors.deep_view();
        proof {
            assert(groups.take(i + 1).drop_last() =~= groups.take(i as int));
            assert(groups.take(i + 1).last() == comma_splitted[i as int].deep_view());
        }
        let mut group: Vec<Lexed> = Vec::new();
        core::mem::swap(&mut group, &mut comma_splitted[i]);
        selector_parser.reset(group);
        match selector_parser.parse_selector() {
            Ok(selector) => {
                selectors.push(selector);
                assert(selectors.deep_view() =~= done.push(selector.deep_view()));
            },
            Err(e) => {
                proof {
                    lemma_selected_fails(groups, i + 1);
                }
                return Err(e);
            },
        }
        i += 1;
    }
    proof {
        assert(groups.take(i as int) =~= groups);
    }
    Ok(selectors)
}

/// The model of a [`Rule`].
pub struct SpecRule {
    pub selectors: Seq<SpecSelector>,
    pub declarations: Seq<SpecDeclaration>,
}

/// A style rule: the selector chains that it holds for, and what it
/// declares.
#[derive(Debug, PartialEq, Eq)]
pub struct Rule {
    pub selectors: Vec<Selector>,
    pub declarations: Vec<Declaration>,
}

impl DeepView for Rule {
    type V = SpecRule;

    open spec fn deep_view(&self) -> SpecRule {
        SpecRule {
            selectors: self.selectors.deep_view(),
            declarations: self.declarations.deep_view(),
        }
    }
}

/// The rules of a stylesheet, in the order of the source.
#[derive(Debug, PartialEq, Eq)]
pub struct Stylesheet {
    pub rules: Vec<Rule>,
}

impl DeepView for Stylesheet {
    type V = Seq<SpecRule>;

    open spec fn deep_view(&self) -> Seq<SpecRule> {
        self.rules.deep_view()
    }
}

/// The tokens of one block: those of its selectors, and those of its
/// declarations.
pub type SpecBlock = (Seq<SpecLexed>, Seq<SpecLexed>);

/// The state of the rule splitter: the blocks that are complete, the
/// selector tokens of the block that is open, if one is, and the tokens
/// gathered since the last brace.
pub struct SpecSplitter {
    pub blocks: Seq<SpecBlock>,
    pub open: Option<Seq<SpecLexed>>,
    pub buf: Seq<SpecLexed>,
}

/// The state of the rule splitter after `tokens`. Outside of a block only
/// `{` is a delimiter: it opens a block under the tokens gathered so far.
/// Inside of one only `}` is: it closes the block over the tokens
/// gathered so far. Every other token is gathered.
pub open spec fn splitter(tokens: Seq<SpecLexed>) -> SpecSplitter
    decreases tokens.len(),
{
    if tokens.len() == 0 {
        SpecSplitter { blocks: Seq::empty(), open: None, buf: Seq::empty() }
    } else {
        let before = splitter(tokens.drop_last());
        let token = tokens.last();
        match before.open {
            None => if token == SpecLexed::Token(Token::BraceOpen) {
                SpecSplitter {
                    blocks: before.blocks,
                    open: Some(before.buf),
                    buf: Seq::empty(),
                }
            } else {
                SpecSplitter { blocks: before.blocks, open: None, buf: before.buf.push(token) }
            },
            Some(selectors) => if token == SpecLexed::Token(Token::BraceClose) {
                SpecSplitter {
                    blocks: before.blocks.push((selectors, before.buf)),
                    open: None,
                    buf: Seq::empty(),
                }
            } else {
                SpecSplitter {
                    blocks: before.blocks,
                    open: before.open,
                    buf: before.buf.push(token),
                }
            },
        }
    }
}

/// The blocks of a token stream, in the order of the source. A block that
/// the stream leaves open counts, without declarations; tokens behind the
/// last block count for nothing.
pub open spec fn blocks_of(tokens: Seq<SpecLexed>) -> Seq<SpecBlock> {
    let end = splitter(tokens);
    match end.open {
        Some(selectors) => end.blocks.push((selectors, Seq::empty())),
        None => end.blocks,
    }
}

/// The rules that the blocks spell. The first block whose selectors
/// cannot be read fails the whole.
pub open spec fn ruled(blocks: Seq<SpecBlock>) -> Result<Seq<SpecRule>, SpecErrorKind>
    decreases blocks.len(),
{
    if blocks.len() == 0 {
        Ok(Seq::empty())
    } else {
        match ruled(blocks.drop_last()) {
            Err(e) => Err(e),
            Ok(before) => match selectors_of(blocks.last().0) {
                Ok(selectors) => Ok(
                    before.push(
                        SpecRule { selectors, declarations: declarations_of(blocks.last().1) },
                    ),
                ),
                Err(e) => Err(e),
            },
        }
    }
}

/// The rules of a token stream.
pub open spec fn rules_of(tokens: Seq<SpecLexed>) -> Result<Seq<SpecRule>, SpecErrorKind> {
    ruled(blocks_of(tokens))
}

/// A failure on a prefix of the blocks is the failure of the whole.
pub proof fn lemma_ruled_fails(blocks: Seq<SpecBlock>, n: int)
    requires
        0 <= n <= blocks.len(),
        ruled(blocks.take(n)) is Err,
    ensures
        ruled(blocks) == ruled(blocks.take(n)),
    decreases blocks.len() - n,
{
    if n < blocks.len() {
        assert(blocks.take(n + 1).drop_last() =~= blocks.take(n));
        lemma_ruled_fails(blocks, n + 1);
    } else {
        assert(blocks.take(n) =~= blocks);
    }
}

/// Groups the tokens into blocks: the tokens before a `{`, and the
/// tokens between it and the next `}`.
pub fn split_blocks(lexed: Vec<Lexed>) -> (splitted: Vec<(Vec<Lexed>, Vec<Lexed>)>)
    ensures
        splitted.deep_view() == blocks_of(lexed.deep_view()),
{
    let ghost tokens = lexed.deep_view();
    let mut splitted: Vec<(Vec<Lexed>, Vec<Lexed>)> = Vec::new();
    let mut open: Option<Vec<Lexed>> = None;
    let mut buf: Vec<Lexed> = Vec::new();
    let mut i: usize = 0;
    proof {
        assert(tokens.take(0) =~= Seq::<SpecLexed>::empty());
        assert(splitted.deep_view() =~= Seq::<SpecBlock>::empty());
        assert(buf.deep_view() =~= Seq::<SpecLexed>::empty());
    }
    while i < lexed.len()
        invariant
            0 <= i <= lexed.len(),
            tokens == lexed.deep_view(),
            splitter(tokens.take(i as int)) == (SpecSplitter {
                blocks: splitted.deep_view(),
                open: open.deep_view(),
                buf: buf.deep_view(),
            }),
        decreases lexed.len() - i,
    {
        let ghost done = splitted.deep_view();
        let ghost gathered = buf.deep_view();
        proof {
            assert(tokens.take(i + 1).drop_last() =~= tokens.take(i as int));
            assert(tokens.take(i + 1).last() == lexed[i as int].deep_view());
        }
        let brace = match &lexed[i] {
            Lexed::Token(Token::BraceOpen) => Some(true),
            Lexed::Token(Token::BraceClose) => Some(false),
            _ => None,
        };
        match (open, brace) {
            (None, Some(true)) => {
                open = Some(buf);
                buf = Vec::new();
                assert(buf.deep_view() =~= Seq::<SpecLexed>::empty());
            },
            (Some(selectors), Some(false)) => {
                splitted.push((selectors, buf));
                open = None;
                buf = Vec::new();
                proof {
                    assert(buf.deep_view() =~= Seq::<SpecLexed>::empty());
                    assert(splitted.deep_view() =~= done.push((selectors.deep_view(), gathered)));
                }
            },
            (state, _) => {
                open = state;
                buf.push(lexed[i].clone());
                assert(buf.deep_view() =~= gathered.push(tokens[i as int]));
            },
        }
        i += 1;
    }
    proof {
        assert(tokens.take(i as int) =~= tokens);
    }
    match open {
        Some(selectors) => {
            let ghost done = splitted.deep_view();
            let rest: Vec<Lexed> = Vec::new();
            assert(rest.deep_view() =~= Seq::<SpecLexed>::empty());
            splitted.push((selectors, rest));
            assert(splitted.deep_view() =~= done.push(
                (selectors.deep_view(), Seq::<SpecLexed>::empty()),
            ));
        },
        None => {},
    }
    splitted
}

/// Reads the rules of a token stream: each block gives one rule, in the
/// order of the source. Fails where the selectors of a block cannot be
/// read; declarations never fail.
pub fn parse_stylesheet(lexed: Vec<Lexed>) -> (res: Result<Stylesheet, Error>)
    ensures
        lift(res) == rules_of(lexed.deep_view()),
{
    let ghost tokens = lexed.deep_view();
    let mut splitted = split_blocks(lexed);
    let ghost blocks = splitted.deep_view();
    let n = splitted.len();
    let mut sheet = Stylesheet { rules: Vec::new() };
    let mut i: usize = 0;
    proof {
        assert(blocks.take(0) =~= Seq::<SpecBlock>::empty());
        assert(sheet.deep_view() =~= Seq::<SpecRule>::empty());
    }
    while i < n
        invariant
            n == splitted.len(),
            0 <= i <= n,
            blocks.len() == n,
            tokens == lexed.deep_view(),
            blocks == blocks_of(tokens),
            forall|k: int| i <= k < n ==> blocks[k] == (#[trigger] splitted[k]).deep_view(),
            ruled(blocks.take(i as int)) == Ok::<Seq<SpecRule>, SpecErrorKind>(sheet.deep_view()),
        decreases n - i,
    {
        let ghost done = sheet.deep_view();
        proof {
            assert(blocks.take(i + 1).drop_last() =~= blocks.take(i as int));
            assert(blocks.take(i + 1).last() == splitted[i as int].deep_view());
        }
        let mut block: (Vec<Lexed>, Vec<Lexed>) = (Vec::new(), Vec::new());
        core::mem::swap(&mut block, &mut splitted[i]);
        let selectors = match parse_selectors(block.0) {
            Ok(selectors) => selectors,
            Err(e) => {
                proof {
                    lemma_ruled_fails(blocks, i + 1);
                }
                return Err(e);
            },
        };
        let declarations = match parse_declarations(block.1) {
            Ok(declarations) => declarations,
            Err(e) => {
                return Err(e);
            },
        };
        sheet.rules.push(Rule { selectors, declarations });
        proof {
            assert(sheet.deep_view() =~= done.push(
                SpecRule {
                    selectors: selectors.deep_view(),
                    declarations: declarations.deep_view(),
                },
            ));
        }
        i += 1;
    }
    proof {
        assert(blocks.take(i as int) =~= blocks);
    }
    Ok(sheet)
}

} // verus!
