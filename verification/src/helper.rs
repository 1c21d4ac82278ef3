//! What the markup and the stylesheet pipeline share: white space and
//! trimming, the splitter that sets quoted text apart, and the errors.

use vstd::prelude::*;

verus! {

/// White space in the sense of the Unicode `White_Space` property.
pub open spec fn is_space(c: char) -> bool {
    let n = c as u32;
    ||| 0x09 <= n <= 0x0D
    ||| n == 0x20
    ||| n == 0x85
    ||| n == 0xA0
    ||| n == 0x1680
    ||| 0x2000 <= n <= 0x200A
    ||| n == 0x2028
    ||| n == 0x2029
    ||| n == 0x202F
    ||| n == 0x205F
    ||| n == 0x3000
}

/// Decides [`is_space`].
pub fn char_is_space(c: char) -> (b: bool)
    ensures
        b == is_space(c),
{
    let n: u32 = c as u32;
    (0x09 <= n && n <= 0x0D) || n == 0x20 || n == 0x85 || n == 0xA0 || n == 0x1680 || (0x2000 <= n
        && n <= 0x200A) || n == 0x2028 || n == 0x2029 || n == 0x202F || n == 0x205F || n == 0x3000
}

/// Index of the first character of `s[lo..hi]` that is not white space,
/// or `hi` if there is none.
pub open spec fn trim_lo(s: Seq<char>, lo: int, hi: int) -> int
    decreases hi - lo,
{
    if lo < hi && 0 <= lo < s.len() && is_space(s[lo]) {
        trim_lo(s, lo + 1, hi)
    } else {
        lo
    }
}

/// End of the last character of `s[lo..hi]` that is not white space, or
/// `lo` if there is none.
pub open spec fn trim_hi(s: Seq<char>, lo: int, hi: int) -> int
    decreases hi - lo,
{
    if lo < hi && 0 < hi <= s.len() && is_space(s[hi - 1]) {
        trim_hi(s, lo, hi - 1)
    } else {
        hi
    }
}

/// The window `s[lo..hi]` without the white space at its two ends.
pub open spec fn window_text(s: Seq<char>, lo: int, hi: int) -> Seq<char> {
    let a = trim_lo(s, lo, hi);
    s.subrange(a, trim_hi(s, a, hi))
}

/// Every character of `s[lo..hi]` is white space.
pub open spec fn all_space(s: Seq<char>, lo: int, hi: int) -> bool {
    forall|i: int| lo <= i < hi ==> is_space(#[trigger] s[i])
}

/// What `trim_lo` skips is white space, and where it stops before `hi`
/// there is none.
pub proof fn lemma_trim_lo(s: Seq<char>, lo: int, hi: int)
    requires
        0 <= lo <= hi <= s.len(),
    ensures
        lo <= trim_lo(s, lo, hi) <= hi,
        all_space(s, lo, trim_lo(s, lo, hi)),
        trim_lo(s, lo, hi) < hi ==> !is_space(s[trim_lo(s, lo, hi)]),
    decreases hi - lo,
{
    if lo < hi && is_space(s[lo]) {
        lemma_trim_lo(s, lo + 1, hi);
    }
}

/// What `trim_hi` takes off is white space, and where it stops above `lo`
/// there is none before it.
pub proof fn lemma_trim_hi(s: Seq<char>, lo: int, hi: int)
    requires
        0 <= lo <= hi <= s.len(),
    ensures
        lo <= trim_hi(s, lo, hi) <= hi,
        all_space(s, trim_hi(s, lo, hi), hi),
        lo < trim_hi(s, lo, hi) ==> !is_space(s[trim_hi(s, lo, hi) - 1]),
    decreases hi - lo,
{
    if lo < hi && is_space(s[hi - 1]) {
        lemma_trim_hi(s, lo, hi - 1);
    }
}

/// Trimming the end of a window stops behind its last character that is
/// no white space.
pub proof fn lemma_trim_hi_above(s: Seq<char>, lo: int, hi: int, at: int)
    requires
        0 <= lo <= at < hi <= s.len(),
        !is_space(s[at]),
    ensures
        trim_hi(s, lo, hi) > at,
    decreases hi - lo,
{
    if is_space(s[hi - 1]) {
        lemma_trim_hi_above(s, lo, hi - 1, at);
    }
}

/// Trimming takes white space off the two ends of a window and nothing
/// else: the text of a window neither begins nor ends with white space,
/// and the window is that text between two runs of white space.
pub proof fn lemma_window_text_is_trimmed(s: Seq<char>, lo: int, hi: int)
    requires
        0 <= lo <= hi <= s.len(),
    ensures
        ({
            let text = window_text(s, lo, hi);
            let a = trim_lo(s, lo, hi);
            let b = trim_hi(s, a, hi);
            &&& lo <= a <= b <= hi
            &&& all_space(s, lo, a)
            &&& all_space(s, b, hi)
            &&& text.len() > 0 ==> !is_space(text.first()) && !is_space(text.last())
            &&& s.subrange(lo, hi) == s.subrange(lo, a) + text + s.subrange(b, hi)
        }),
{
    let a = trim_lo(s, lo, hi);
    let b = trim_hi(s, a, hi);
    lemma_trim_lo(s, lo, hi);
    lemma_trim_hi(s, a, hi);
    let text = window_text(s, lo, hi);
    assert(s.subrange(lo, hi) =~= s.subrange(lo, a) + text + s.subrange(b, hi));
    if text.len() > 0 {
        assert(text.first() == s[a]);
        assert(text.last() == s[b - 1]);
    }
}

/// A window that is cut short behind its first character that is no
/// white space begins where the whole window begins.
pub proof fn lemma_trim_lo_shorter(s: Seq<char>, lo: int, hi: int, mid: int)
    requires
        0 <= lo <= hi <= s.len(),
        trim_lo(s, lo, hi) < mid <= hi,
    ensures
        trim_lo(s, lo, mid) == trim_lo(s, lo, hi),
    decreases hi - lo,
{
    if lo < hi && is_space(s[lo]) {
        lemma_trim_lo_shorter(s, lo + 1, hi, mid);
    }
}

/// The first index at or after `lo` and below `hi` that holds no white
/// space, or `hi`.
pub fn skip_space(chars: &Vec<char>, lo: usize, hi: usize) -> (a: usize)
    requires
        lo <= hi <= chars.len(),
    ensures
        a == trim_lo(chars@, lo as int, hi as int),
        lo <= a <= hi,
{
    let mut a: usize = lo;
    while a < hi && char_is_space(chars[a])
        invariant
            lo <= a <= hi <= chars.len(),
            trim_lo(chars@, lo as int, hi as int) == trim_lo(chars@, a as int, hi as int),
        decreases hi - a,
    {
        a += 1;
    }
    a
}

/// The end of the window `[lo, hi)` once the white space at its end is
/// taken off.
pub fn drop_space(chars: &Vec<char>, lo: usize, hi: usize) -> (b: usize)
    requires
        lo <= hi <= chars.len(),
    ensures
        b == trim_hi(chars@, lo as int, hi as int),
        lo <= b <= hi,
{
    let mut b: usize = hi;
    while lo < b && char_is_space(chars[b - 1])
        invariant
            lo <= b <= hi <= chars.len(),
            trim_hi(chars@, lo as int, hi as int) == trim_hi(chars@, lo as int, b as int),
        decreases b - lo,
    {
        b -= 1;
    }
    b
}

/// The characters of a string, in order.
pub fn chars_of(s: &str) -> (v: Vec<char>)
    ensures
        v@ == s@,
{
    let mut v: Vec<char> = Vec::new();
    for c in it: s.chars()
        invariant
            it.seq() == s@,
            v@ == s@.take(it.index()),
    {
        v.push(c);
    }
    assert(v@ == s@);
    v
}

/// A copy of the characters `from..to` of `s`.
pub fn slice_of(s: &str, from: usize, to: usize) -> (r: String)
    requires
        from <= to <= s@.len(),
    ensures
        r@ == s@.subrange(from as int, to as int),
{
    s.substring_char(from, to).to_owned()
}

/// Lifts a result to the models of its two sides.
pub open spec fn lift<T: DeepView, E: DeepView>(r: Result<T, E>) -> Result<T::V, E::V> {
    match r {
        Ok(t) => Ok(t.deep_view()),
        Err(e) => Err(e.deep_view()),
    }
}

/// A stretch of the source text: what stood between two quotation marks,
/// or what stood outside them.
pub enum Span {
    Literal(Seq<char>),
    Unquoted(Seq<char>),
}

/// A stretch of the source text, as [`pre_lex`] hands it out. `String` is
/// the text between two quotation marks, `Rest` is text outside them.
#[derive(Debug, Clone, PartialEq, Eq)]
pub enum PreLexed {
    String(String),
    Rest(String),
}

impl DeepView for PreLexed {
    type V = Span;

    open spec fn deep_view(&self) -> Span {
        match self {
            PreLexed::String(s) => Span::Literal(s@),
            PreLexed::Rest(s) => Span::Unquoted(s@),
        }
    }
}

/// The pieces into which the occurrences of `sep` cut the sequence `text`:
/// one more piece than there are occurrences, none of them holding `sep`.
pub open spec fn pieces<T>(text: Seq<T>, sep: T) -> Seq<Seq<T>>
    decreases text.len(),
{
    if text.len() == 0 {
        seq![Seq::empty()]
    } else {
        let before = pieces(text.drop_last(), sep);
        if text.last() == sep {
            before.push(Seq::empty())
        } else {
            before.update(before.len() - 1, before.last().push(text.last()))
        }
    }
}

/// The pieces `parts` with `sep` between each two of them.
pub open spec fn joined<T>(parts: Seq<Seq<T>>, sep: T) -> Seq<T>
    decreases parts.len(),
{
    if parts.len() == 0 {
        Seq::empty()
    } else if parts.len() == 1 {
        parts[0]
    } else {
        joined(parts.drop_last(), sep).push(sep) + parts.last()
    }
}

/// Cutting loses nothing and orders nothing anew: there is at least one
/// piece, no piece holds `sep`, and the pieces with `sep` between them
/// are `text` again.
pub proof fn lemma_pieces_partition<T>(text: Seq<T>, sep: T)
    ensures
        pieces(text, sep).len() >= 1,
        forall|i: int, j: int|
            0 <= i < pieces(text, sep).len() && 0 <= j < pieces(text, sep)[i].len() ==> pieces(
                text,
                sep,
            )[i][j] != sep,
        joined(pieces(text, sep), sep) == text,
    decreases text.len(),
{
    if text.len() > 0 {
        let front = text.drop_last();
        let before = pieces(front, sep);
        let after = pieces(text, sep);
        lemma_pieces_partition(front, sep);
        assert(joined(before, sep).push(text.last()) =~= text);
        if text.last() == sep {
            assert(after.drop_last() =~= before);
            assert(joined(after, sep) =~= joined(before, sep).push(sep));
        } else if before.len() == 1 {
            assert(joined(after, sep) =~= joined(before, sep).push(text.last()));
        } else {
            assert(after.drop_last() =~= before.drop_last());
            assert(joined(after, sep) =~= joined(before, sep).push(text.last()));
        }
    }
}

/// Behind text that holds no `sep`, the last piece grows and no piece is
/// added.
pub proof fn lemma_pieces_append<T>(text: Seq<T>, more: Seq<T>, sep: T)
    requires
        forall|i: int| 0 <= i < more.len() ==> more[i] != sep,
    ensures
        pieces(text, sep).len() >= 1,
        pieces(text + more, sep) == pieces(text, sep).update(
            pieces(text, sep).len() - 1,
            pieces(text, sep).last() + more,
        ),
    decreases more.len(),
{
    lemma_pieces_partition(text, sep);
    let before = pieces(text, sep);
    if more.len() == 0 {
        assert(text + more =~= text);
        assert(before.last() + more =~= before.last());
        assert(before.update(before.len() - 1, before.last()) =~= before);
    } else {
        let front = more.drop_last();
        lemma_pieces_append(text, front, sep);
        assert((text + more).drop_last() =~= text + front);
        assert((before.last() + front).push(more.last()) =~= before.last() + more);
        assert(pieces(text + more, sep) =~= before.update(
            before.len() - 1,
            before.last() + more,
        ));
    }
}

/// Cutting is the inverse of joining: pieces that hold no `sep`, joined
/// by `sep`, are cut into the same pieces again.
pub proof fn lemma_pieces_of_joined<T>(parts: Seq<Seq<T>>, sep: T)
    requires
        parts.len() >= 1,
        forall|i: int, j: int|
            0 <= i < parts.len() && 0 <= j < parts[i].len() ==> parts[i][j] != sep,
    ensures
        pieces(joined(parts, sep), sep) == parts,
    decreases parts.len(),
{
    if parts.len() == 1 {
        lemma_pieces_append(Seq::<T>::empty(), parts[0], sep);
        assert(Seq::<T>::empty() + parts[0] =~= parts[0]);
        assert(pieces(parts[0], sep) =~= parts);
    } else {
        let front = parts.drop_last();
        lemma_pieces_of_joined(front, sep);
        let head = joined(front, sep).push(sep);
        assert(head.drop_last() =~= joined(front, sep));
        assert(pieces(head, sep) =~= front.push(Seq::empty()));
        lemma_pieces_append(head, parts.last(), sep);
        assert(Seq::<T>::empty() + parts.last() =~= parts.last());
        assert(pieces(joined(parts, sep), sep) =~= parts);
    }
}

/// Cuts `text` at each occurrence of `sep`.
pub fn split_on(text: &str, sep: char) -> (res: Vec<String>)
    ensures
        res.deep_view() == pieces(text@, sep),
        res.len() >= 1,
{
    let chars = chars_of(text);
    let n = chars.len();
    let mut result: Vec<String> = Vec::new();
    let mut start: usize = 0;
    proof {
        assert(chars@.take(0) =~= Seq::<char>::empty());
    }
    let mut i: usize = 0;
    while i < n
        invariant
            chars@ == text@,
            n == chars.len(),
            0 <= start <= i <= n,
            pieces(chars@.take(i as int), sep).len() == result.len() + 1,
            pieces(chars@.take(i as int), sep).last() == chars@.subrange(start as int, i as int),
            forall|k: int|
                0 <= k < result.len() ==> (#[trigger] result[k])@ == pieces(
                    chars@.take(i as int),
                    sep,
                )[k],
        decreases n - i,
    {
        let c = chars[i];
        proof {
            let next = chars@.take(i + 1);
            assert(next.drop_last() =~= chars@.take(i as int));
            assert(next.last() == c);
            if c != sep {
                assert(chars@.subrange(start as int, i as int).push(c) =~= chars@.subrange(
                    start as int,
                    i + 1,
                ));
            } else {
                assert(chars@.subrange(i + 1, i + 1) =~= Seq::<char>::empty());
            }
        }
        if c == sep {
            result.push(slice_of(text, start, i));
            start = i + 1;
        }
        i += 1;
    }
    proof {
        assert(chars@.take(n as int) =~= chars@);
    }
    result.push(slice_of(text, start, n));
    proof {
        assert(result.deep_view() =~= pieces(text@, sep));
    }
    result
}

/// The spans of `text`. A quotation mark opens a literal and the next one
/// closes it, so the pieces at odd places are literals; the last piece is
/// always unquoted, also where a literal was left open.
pub open spec fn spans_of(text: Seq<char>) -> Seq<Span> {
    let parts = pieces(text, '"');
    Seq::new(
        parts.len(),
        |i: int|
            if i % 2 == 1 && i + 1 < parts.len() {
                Span::Literal(parts[i])
            } else {
                Span::Unquoted(parts[i])
            },
    )
}

/// Splits `query` at its quotation marks into alternating unquoted and
/// quoted spans. Never fails: text after an unmatched mark comes out as the
/// last, unquoted span.
pub fn pre_lex(query: String) -> (res: Result<Vec<PreLexed>, Error>)
    ensures
        res is Ok,
        res->Ok_0.deep_view() == spans_of(query@),
{
    let parts = split_on(query.as_str(), '"');
    let n = parts.len();
    let mut result: Vec<PreLexed> = Vec::new();
    let mut i: usize = 0;
    while i < n
        invariant
            n == parts.len(),
            0 <= i <= n,
            result.len() == i,
            parts.deep_view() == pieces(query@, '"'),
            forall|k: int| 0 <= k < i ==> (#[trigger] result[k]).deep_view() == spans_of(query@)[k],
        decreases n - i,
    {
        assert(parts.deep_view()[i as int] == parts[i as int]@);
        let piece = parts[i].clone();
        if i % 2 == 1 && i + 1 < n {
            result.push(PreLexed::String(piece));
        } else {
            result.push(PreLexed::Rest(piece));
        }
        i += 1;
    }
    proof {
        assert(result.deep_view() =~= spans_of(query@));
    }
    Ok(result)
}

/// How many elements, or selectors of a chain, may stand inside one
/// another. What nests deeper is refused, so that the recursion of the
/// parsers stays bounded.
pub const MAX_DEPTH: usize = 256;

/// What is wrong with the brackets of a tag.
#[derive(Debug, Clone, Copy, PartialEq, Eq, Structural)]
pub enum TagFault {
    /// `<` or `</` inside a tag.
    NestedOpen,
    /// `>` or `/>` outside a tag.
    StrayClose,
    /// A tag that ends before it has a name.
    NoName,
    /// A tag that begins with `</` and ends with `/>`.
    SelfClosingClose,
    /// `/` inside a tag.
    SlashInTag,
}

/// What is wrong with the value of a declaration.
#[derive(Debug, Clone, Copy, PartialEq, Eq, Structural)]
pub enum ValueFault {
    /// The value has fewer tokens than its kind needs.
    TooShort,
    /// A length does not begin with a number.
    NotANumber,
    /// The number of a length is not followed by a known unit.
    UnknownUnit,
    /// A keyword is not an identifier.
    NotAKeyword,
}

/// Why a parse was given up.
#[derive(Debug, Clone, PartialEq, Eq)]
pub enum ErrorKind {
    /// No token starts at the character in the first field, which stands at
    /// the place in its span that the second field gives.
    UnrecognizedToken(String, usize),
    /// The brackets of a tag do not match.
    StructuralTag(TagFault),
    /// `=` and a quoted value inside a tag that has no attribute yet.
    WrongEquals,
    /// A node was asked for where the tag stream holds text.
    NodeIsContent,
    /// A node was asked for at the end of the tag stream.
    NoElement,
    /// The tag stream ends inside the element of this name.
    UnterminatedElement(String),
    /// Elements or selectors nest deeper than the parsers follow.
    TooDeep,
    /// A selector holds this token where none such can stand.
    UnexpectedTokenInSelector(crate::css::lexer::Lexed),
    /// The value of a declaration is not of the kind of its property.
    MalformedValue(ValueFault),
}

/// The model of an [`ErrorKind`].
pub enum SpecErrorKind {
    UnrecognizedToken(Seq<char>, int),
    StructuralTag(TagFault),
    WrongEquals,
    NodeIsContent,
    NoElement,
    UnterminatedElement(Seq<char>),
    TooDeep,
    UnexpectedTokenInSelector(crate::css::lexer::SpecLexed),
    MalformedValue(ValueFault),
}

impl DeepView for ErrorKind {
    type V = SpecErrorKind;

    open spec fn deep_view(&self) -> SpecErrorKind {
        match self {
            ErrorKind::UnrecognizedToken(text, position) => SpecErrorKind::UnrecognizedToken(
                text@,
                *position as int,
            ),
            ErrorKind::StructuralTag(fault) => SpecErrorKind::StructuralTag(*fault),
            ErrorKind::WrongEquals => SpecErrorKind::WrongEquals,
            ErrorKind::NodeIsContent => SpecErrorKind::NodeIsContent,
            ErrorKind::NoElement => SpecErrorKind::NoElement,
            ErrorKind::UnterminatedElement(name) => SpecErrorKind::UnterminatedElement(name@),
            ErrorKind::TooDeep => SpecErrorKind::TooDeep,
            ErrorKind::UnexpectedTokenInSelector(token) => SpecErrorKind::UnexpectedTokenInSelector(
                token.deep_view(),
            ),
            ErrorKind::MalformedValue(fault) => SpecErrorKind::MalformedValue(*fault),
        }
    }
}

/// The error of every parser of this library.
#[derive(Debug, Clone, PartialEq, Eq)]
pub struct Error(pub ErrorKind);

impl DeepView for Error {
    type V = SpecErrorKind;

    open spec fn deep_view(&self) -> SpecErrorKind {
        self.0.deep_view()
    }
}

} // verus!
