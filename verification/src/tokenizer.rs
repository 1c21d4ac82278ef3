//! The tokenizer that both grammars use: at each place of an unquoted
//! span it takes the longest window whose trimmed text is a lexical item,
//! trying the windows from the widest down.
//!
//! Text that is no item is never dropped in silence: in every grammar the
//! scan fails at the first character, white space apart, at which no item
//! starts. White space between items belongs to no item and is no error.

use crate::helper::{
    chars_of, drop_space, skip_space, slice_of, trim_lo, window_text, Error, ErrorKind, PreLexed,
    Span, SpecErrorKind,
};
use vstd::prelude::*;

verus! {

/// The entry of a symbol table that spells `text`, if there is one.
pub open spec fn lookup<T>(table: Seq<(Seq<char>, T)>, text: Seq<char>) -> Option<T>
    decreases table.len(),
{
    if table.len() == 0 {
        None
    } else if table[0].0 == text {
        Some(table[0].1)
    } else {
        lookup(table.drop_first(), text)
    }
}

/// What is looked up and found stands in the table.
pub proof fn lemma_lookup_found<T>(table: Seq<(Seq<char>, T)>, text: Seq<char>)
    requires
        lookup(table, text) is Some,
    ensures
        exists|i: int|
            0 <= i < table.len() && #[trigger] table[i] == (text, lookup(table, text)->Some_0),
    decreases table.len(),
{
    if table.len() > 0 {
        if table[0].0 == text {
            assert(table[0] == (text, lookup(table, text)->Some_0));
        } else {
            let rest = table.drop_first();
            lemma_lookup_found(rest, text);
            let i = choose|i: int|
                0 <= i < rest.len() && #[trigger] rest[i] == (text, lookup(rest, text)->Some_0);
            assert(table[i + 1] == rest[i]);
        }
    }
}

/// What stands in the table, and not under the same spelling before, is
/// found.
pub proof fn lemma_lookup_finds<T>(table: Seq<(Seq<char>, T)>, i: int)
    requires
        0 <= i < table.len(),
        forall|j: int| 0 <= j < i ==> (#[trigger] table[j]).0 != table[i].0,
    ensures
        lookup(table, table[i].0) == Some(table[i].1),
    decreases table.len(),
{
    if i > 0 {
        let rest = table.drop_first();
        assert(table[0].0 != table[i].0);
        assert forall|j: int| 0 <= j < i - 1 implies (#[trigger] rest[j]).0 != rest[i - 1].0 by {
            assert(rest[j] == table[j + 1]);
        }
        lemma_lookup_finds(rest, i - 1);
    }
}

/// A symbol table as the tokenizers hold it, seen as its model.
pub open spec fn table_view<T>(table: Seq<(&'static str, T)>) -> Seq<(Seq<char>, T)> {
    Seq::new(table.len(), |i: int| (table[i].0@, table[i].1))
}

/// Whether the characters `lo..hi` of `chars` spell `word`.
pub fn spells(chars: &Vec<char>, lo: usize, hi: usize, word: &str) -> (b: bool)
    requires
        lo <= hi <= chars.len(),
    ensures
        b == (chars@.subrange(lo as int, hi as int) == word@),
{
    let n = word.unicode_len();
    if n != hi - lo {
        return false;
    }
    let mut j: usize = 0;
    while j < n
        invariant
            n == hi - lo,
            n == word@.len(),
            lo <= hi <= chars.len(),
            0 <= j <= n,
            forall|k: int| 0 <= k < j ==> chars@[lo + k] == word@[k],
        decreases n - j,
    {
        if chars[lo + j] != word.get_char(j) {
            assert(chars@.subrange(lo as int, hi as int)[j as int] != word@[j as int]);
            return false;
        }
        j += 1;
    }
    assert(chars@.subrange(lo as int, hi as int) =~= word@);
    true
}

/// Looks the characters `lo..hi` of `chars` up in a symbol table.
pub fn find_symbol<T: Copy>(
    table: &Vec<(&'static str, T)>,
    chars: &Vec<char>,
    lo: usize,
    hi: usize,
) -> (r: Option<T>)
    requires
        lo <= hi <= chars.len(),
    ensures
        r == lookup(table_view(table@), chars@.subrange(lo as int, hi as int)),
{
    let ghost text = chars@.subrange(lo as int, hi as int);
    let mut i: usize = 0;
    assert(table_view(table@).skip(0) =~= table_view(table@));
    while i < table.len()
        invariant
            lo <= hi <= chars.len(),
            0 <= i <= table.len(),
            text == chars@.subrange(lo as int, hi as int),
            lookup(table_view(table@), text) == lookup(table_view(table@).skip(i as int), text),
        decreases table.len() - i,
    {
        let ghost rest = table_view(table@).skip(i as int);
        assert(rest[0] == table_view(table@)[i as int]);
        assert(rest.drop_first() =~= table_view(table@).skip(i + 1));
        if spells(chars, lo, hi, table[i].0) {
            return Some(table[i].1);
        }
        i += 1;
    }
    None
}

/// The rules of a lexical grammar: which texts are one lexical item, and
/// how a quoted literal enters the token stream.
pub trait Lexicon {
    /// The model of a lexical item.
    type Item;

    /// The item that `text` spells, if it spells one.
    spec fn item(text: Seq<char>) -> Option<Self::Item>;

    /// The item that stands for the quoted literal `text`.
    spec fn literal(text: Seq<char>) -> Self::Item;
}

/// A lexical grammar that can read: it holds the tables of its rules.
pub trait Grammar: Lexicon {
    /// A lexical item.
    type Token: DeepView<V = Self::Item>;

    /// The tables of the grammar are the ones that its rules go by.
    spec fn wf(&self) -> bool;

    /// Reads the characters `lo..hi` of `text` as one item.
    fn read(&self, text: &str, chars: &Vec<char>, lo: usize, hi: usize) -> (r: Option<
        Self::Token,
    >)
        requires
            self.wf(),
            chars@ == text@,
            lo <= hi <= chars.len(),
        ensures
            r.deep_view() == Self::item(chars@.subrange(lo as int, hi as int)),
    ;

    /// Wraps a quoted literal.
    fn quoted(&self, text: String) -> (r: Self::Token)
        ensures
            r.deep_view() == Self::literal(text@),
    ;
}

/// The end of the longest window that starts at `pos`, ends at or before
/// `offset`, and whose trimmed text is an item of `G`; `pos` where no such
/// window is. The windows are tried from the widest down.
pub open spec fn longest<G: Lexicon>(s: Seq<char>, pos: int, offset: int) -> int
    decreases offset - pos,
{
    if offset <= pos {
        pos
    } else if G::item(window_text(s, pos, offset)).is_some() {
        offset
    } else {
        longest::<G>(s, pos, offset - 1)
    }
}

/// The longest window ends behind `pos` and at or before `offset`, and
/// its text is an item; or it is no window at all.
pub proof fn lemma_longest_bounds<G: Lexicon>(s: Seq<char>, pos: int, offset: int)
    requires
        pos <= offset,
    ensures
        pos <= longest::<G>(s, pos, offset) <= offset,
        pos < longest::<G>(s, pos, offset) ==> G::item(
            window_text(s, pos, longest::<G>(s, pos, offset)),
        ).is_some(),
    decreases offset - pos,
{
    if offset > pos && !G::item(window_text(s, pos, offset)).is_some() {
        lemma_longest_bounds::<G>(s, pos, offset - 1);
    }
}

/// A window that spells an item bounds the longest window from below.
pub proof fn lemma_longest_at_least<G: Lexicon>(s: Seq<char>, pos: int, offset: int, end: int)
    requires
        pos < end <= offset,
        G::item(window_text(s, pos, end)).is_some(),
    ensures
        longest::<G>(s, pos, offset) >= end,
    decreases offset - pos,
{
    if offset > end && !G::item(window_text(s, pos, offset)).is_some() {
        lemma_longest_at_least::<G>(s, pos, offset - 1, end);
    }
}

/// Where a window spells an item and no wider window does, it is the
/// longest.
pub proof fn lemma_longest_is<G: Lexicon>(s: Seq<char>, pos: int, offset: int, end: int)
    requires
        pos < end <= offset,
        G::item(window_text(s, pos, end)).is_some(),
        forall|wider: int|
            end < wider <= offset ==> G::item(#[trigger] window_text(s, pos, wider)).is_none(),
    ensures
        longest::<G>(s, pos, offset) == end,
    decreases offset - end,
{
    if offset > end {
        assert(G::item(window_text(s, pos, offset)).is_none());
        lemma_longest_is::<G>(s, pos, offset - 1, end);
    }
}

/// The lexical items of the span `s` from `pos` on. At each place the
/// longest window wins; white space at either end of a window belongs to
/// no item. Where a character that is not white space starts no item, the
/// scan fails and names that character and its place in the span.
pub open spec fn scan<G: Lexicon>(s: Seq<char>, pos: int) -> Result<Seq<G::Item>, SpecErrorKind>
    decreases s.len() - pos,
{
    if pos < 0 || pos >= s.len() {
        Ok(Seq::empty())
    } else {
        let end = longest::<G>(s, pos, s.len() as int);
        if end <= pos {
            let a = trim_lo(s, pos, s.len() as int);
            if a >= s.len() {
                Ok(Seq::empty())
            } else {
                Err(SpecErrorKind::UnrecognizedToken(s.subrange(a, a + 1), a))
            }
        } else {
            proof {
                lemma_longest_bounds::<G>(s, pos, s.len() as int);
            }
            match scan::<G>(s, end) {
                Ok(rest) => Ok(seq![G::item(window_text(s, pos, end)).unwrap()] + rest),
                Err(e) => Err(e),
            }
        }
    }
}

/// The token stream of a sequence of spans: a literal gives one item, an
/// unquoted span gives the items that [`scan`] finds in it. The first span
/// that cannot be scanned fails the whole.
pub open spec fn lex_spans<G: Lexicon>(spans: Seq<Span>) -> Result<Seq<G::Item>, SpecErrorKind>
    decreases spans.len(),
{
    if spans.len() == 0 {
        Ok(Seq::empty())
    } else {
        match lex_spans::<G>(spans.drop_last()) {
            Err(e) => Err(e),
            Ok(before) => match spans.last() {
                Span::Literal(text) => Ok(before.push(G::literal(text))),
                Span::Unquoted(text) => match scan::<G>(text, 0) {
                    Ok(items) => Ok(before + items),
                    Err(e) => Err(e),
                },
            },
        }
    }
}

/// Finds the longest window at `pos` whose trimmed text is an item of `G`,
/// and reads it. Returns the end of the window with the item.
pub fn next_window<G: Grammar>(g: &G, text: &str, chars: &Vec<char>, pos: usize) -> (w: Option<
    (usize, G::Token),
>)
    requires
        g.wf(),
        chars@ == text@,
        pos <= chars.len(),
    ensures
        match w {
            Some((end, token)) => {
                &&& pos < end <= chars.len()
                &&& end == longest::<G>(chars@, pos as int, chars.len() as int)
                &&& Some(token.deep_view()) == G::item(window_text(chars@, pos as int, end as int))
            },
            None => longest::<G>(chars@, pos as int, chars.len() as int) == pos,
        },
{
    let mut offset: usize = chars.len();
    while offset > pos
        invariant
            g.wf(),
            chars@ == text@,
            pos <= offset <= chars.len(),
            longest::<G>(chars@, pos as int, chars.len() as int) == longest::<G>(
                chars@,
                pos as int,
                offset as int,
            ),
        decreases offset - pos,
    {
        let lo = skip_space(chars, pos, offset);
        let hi = drop_space(chars, lo, offset);
        match g.read(text, chars, lo, hi) {
            Some(token) => {
                return Some((offset, token));
            },
            None => {},
        }
        offset -= 1;
    }
    None
}

/// Appends the lexical items of the unquoted span `text` to `out`.
pub fn scan_span<G: Grammar>(g: &G, text: &str, out: &mut Vec<G::Token>) -> (r: Result<(), Error>)
    requires
        g.wf(),
    ensures
        match scan::<G>(text@, 0) {
            Ok(items) => r is Ok && final(out).deep_view() == old(out).deep_view() + items,
            Err(e) => r is Err && r->Err_0.deep_view() == e,
        },
{
    let chars = chars_of(text);
    let n = chars.len();
    let mut pos: usize = 0;
    let ghost before = out.deep_view();
    let ghost mut found: Seq<G::Item> = Seq::empty();
    assert(before + found =~= before);
    while pos < n
        invariant
            g.wf(),
            chars@ == text@,
            n == chars.len(),
            0 <= pos <= n,
            before == old(out).deep_view(),
            out.deep_view() == before + found,
            match scan::<G>(chars@, pos as int) {
                Ok(rest) => scan::<G>(chars@, 0) == Ok::<Seq<G::Item>, SpecErrorKind>(found + rest),
                Err(e) => scan::<G>(chars@, 0) == Err::<Seq<G::Item>, SpecErrorKind>(e),
            },
        decreases n - pos,
    {
        match next_window(g, text, &chars, pos) {
            Some((end, token)) => {
                proof {
                    let it = token.deep_view();
                    match scan::<G>(chars@, end as int) {
                        Ok(rest) => {
                            assert(found + (seq![it] + rest) =~= found.push(it) + rest);
                        },
                        Err(e) => {},
                    }
                    assert(out.deep_view().push(it) =~= before + found.push(it));
                    found = found.push(it);
                }
                let ghost prev = out.deep_view();
                out.push(token);
                assert(out.deep_view() =~= prev.push(token.deep_view()));
                pos = end;
            },
            None => {
                let a = skip_space(&chars, pos, n);
                if a < n {
                    return Err(Error(ErrorKind::UnrecognizedToken(slice_of(text, a, a + 1), a)));
                }
                assert(found + Seq::<G::Item>::empty() =~= found);
                return Ok(());
            },
        }
    }
    assert(found + Seq::<G::Item>::empty() =~= found);
    Ok(())
}

/// Turns spans into tokens by the grammar `g`.
pub fn tokenize_with<G: Grammar>(g: &G, pre_lexed: &Vec<PreLexed>) -> (res: Result<
    Vec<G::Token>,
    Error,
>)
    requires
        g.wf(),
    ensures
        match lex_spans::<G>(pre_lexed.deep_view()) {
            Ok(items) => res is Ok && res->Ok_0.deep_view() == items,
            Err(e) => res is Err && res->Err_0.deep_view() == e,
        },
{
    let mut out: Vec<G::Token> = Vec::new();
    let mut i: usize = 0;
    assert(pre_lexed.deep_view().take(0) =~= Seq::<Span>::empty());
    assert(out.deep_view() =~= Seq::<G::Item>::empty());
    while i < pre_lexed.len()
        invariant
            g.wf(),
            0 <= i <= pre_lexed.len(),
            lex_spans::<G>(pre_lexed.deep_view().take(i as int)) == Ok::<
                Seq<G::Item>,
                SpecErrorKind,
            >(out.deep_view()),
        decreases pre_lexed.len() - i,
    {
        let ghost spans = pre_lexed.deep_view();
        proof {
            assert(spans.take(i + 1).drop_last() =~= spans.take(i as int));
            assert(spans.take(i + 1).last() == pre_lexed[i as int].deep_view());
        }
        let ghost prev = out.deep_view();
        match &pre_lexed[i] {
            PreLexed::String(s) => {
                let token = g.quoted(s.clone());
                out.push(token);
                assert(out.deep_view() =~= prev.push(token.deep_view()));
            },
            PreLexed::Rest(s) => {
                match scan_span(g, s.as_str(), &mut out) {
                    Ok(()) => {},
                    Err(e) => {
                        proof {
                            lemma_lex_spans_fails::<G>(spans, i + 1);
                        }
                        return Err(e);
                    },
                }
            },
        }
        i += 1;
    }
    assert(pre_lexed.deep_view().take(i as int) =~= pre_lexed.deep_view());
    Ok(out)
}

/// A failure on a prefix of the spans is the failure of the whole.
pub proof fn lemma_lex_spans_fails<G: Lexicon>(spans: Seq<Span>, n: int)
    requires
        0 <= n <= spans.len(),
        lex_spans::<G>(spans.take(n)) is Err,
    ensures
        lex_spans::<G>(spans) == lex_spans::<G>(spans.take(n)),
    decreases spans.len() - n,
{
    if n < spans.len() {
        assert(spans.take(n + 1).drop_last() =~= spans.take(n));
        lemma_lex_spans_fails::<G>(spans, n + 1);
    } else {
        assert(spans.take(n) =~= spans);
    }
}

} // verus!
