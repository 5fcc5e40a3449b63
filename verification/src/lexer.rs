//! Tokens, source locations and the lexer.
use crate::arena::{is_default, Arena, Id, World};
use crate::error::{ErrorKind, Errors};
use crate::file::{FileId, Files};
use vstd::prelude::*;

verus! {

/// The kinds of tokens of the language.
#[derive(Clone, Copy, Debug, PartialEq, Eq, Structural)]
pub enum TokenKind {
    Newline,
    Comma,
    Equals,
    ColonEquals,
    DotEquals,
    EqualsEquals,
    NotEquals,
    DotDot,
    Dot,
    Colon,
    DollarSign,
    ColonColon,
    Semicolon,
    Ampersand,
    QuestionMark,
    LeftArrow,
    RightArrow,
    Bar,
    Plus,
    PlusPlus,
    Minus,
    MinusMinus,
    Times,
    TimesTimes,
    Divide,
    DivideDivide,
    LShift,
    RShift,
    Percent,
    LParen,
    RParen,
    LCurl,
    RCurl,
    LSquare,
    RSquare,
    LAngle,
    RAngle,
    LAngleEquals,
    RAngleEquals,
    Integer,
    Float,
    Underscore,
    UIdent,
    LIdent,
    String,
    Character,
    Unknown,
    EndOfFile,
}

impl Default for TokenKind {
    fn default() -> (r: Self)
        ensures
            r == TokenKind::EndOfFile,
    {
        TokenKind::EndOfFile
    }
}

/// A default token kind is the end of the file.
pub proof fn lemma_default_token_kind(k: TokenKind)
    ensures
        is_default(k) ==> k == TokenKind::EndOfFile,
{
}

/// Marks ids, worlds and arenas that belong to [`Tokens`].
#[derive(Debug)]
pub struct TokenMarker;

/// A sequence of tokens, each with its kind and location.
pub struct Tokens {
    pub ids: World<TokenMarker>,
    pub kinds: Arena<TokenMarker, TokenKind>,
    pub locations: Arena<TokenMarker, Option<Location>>,
}

/// The identifier of a token.
pub type TokenId = Id<TokenMarker>;

impl Tokens {
    /// The token sequence's internal consistency.
    pub open spec fn wf(&self) -> bool {
        &&& self.ids.wf()
        &&& self.kinds.wf()
        &&& self.locations.wf()
    }

    /// The kind of token `i`; past the end of the sequence, the end of the file.
    pub open spec fn kind_at(&self, i: nat) -> TokenKind {
        self.kinds.value_at(i)
    }

    /// The location of token `i`, if it has one.
    pub open spec fn location_at(&self, i: nat) -> Option<Location> {
        self.locations.value_at(i)
    }

    /// The number of positions that hold a kind or a location.
    pub open spec fn extent(&self) -> nat {
        if self.kinds.slots().len() < self.locations.slots().len() {
            self.locations.slots().len()
        } else {
            self.kinds.slots().len()
        }
    }

    /// Constructs an empty token sequence.
    pub fn new() -> (r: Self)
        ensures
            r.wf(),
            r.ids.allocated() == 0,
            r.kinds.slots().len() == 0,
            r.locations.slots().len() == 0,
    {
        Tokens { ids: World::new(), kinds: Arena::new(), locations: Arena::new() }
    }
}

impl Default for Tokens {
    fn default() -> (r: Self)
        ensures
            r.wf(),
            r.ids.allocated() == 0,
            r.kinds.slots().len() == 0,
            r.locations.slots().len() == 0,
    {
        Tokens::new()
    }
}

/// A span of source text: byte offsets `start..end` of a file, and the lines
/// and (one-based) columns that the span covers.
#[derive(Clone, Copy, Debug)]
pub struct Location {
    pub file: FileId,
    pub start: u32,
    pub end: u32,
    pub line_start: u32,
    pub line_end: u32,
    pub char_start: u32,
    pub char_end: u32,
}

/// The smaller of two numbers.
pub open spec fn min_u32(a: u32, b: u32) -> u32 {
    if a <= b {
        a
    } else {
        b
    }
}

/// The larger of two numbers.
pub open spec fn max_u32(a: u32, b: u32) -> u32 {
    if a >= b {
        a
    } else {
        b
    }
}

/// The smallest span that covers two spans of the same file.
pub open spec fn cover(l: Location, r: Location) -> Location {
    Location {
        file: l.file,
        start: min_u32(l.start, r.start),
        end: max_u32(l.end, r.end),
        line_start: min_u32(l.line_start, r.line_start),
        line_end: max_u32(l.line_end, r.line_end),
        char_start: min_u32(l.char_start, r.char_start),
        char_end: max_u32(l.char_end, r.char_end),
    }
}

/// Merging two optional locations: a missing side gives the other side; two
/// locations in different files give none; two in the same file give the
/// smallest span covering both.
pub open spec fn merged(lhs: Option<Location>, rhs: Option<Location>) -> Option<Location> {
    match (lhs, rhs) {
        (None, None) => None,
        (None, Some(r)) => Some(r),
        (Some(l), None) => Some(l),
        (Some(l), Some(r)) => if l.file@ != r.file@ {
            None
        } else {
            Some(cover(l, r))
        },
    }
}

fn min_of(a: u32, b: u32) -> (r: u32)
    ensures
        r == min_u32(a, b),
{
    if a <= b {
        a
    } else {
        b
    }
}

fn max_of(a: u32, b: u32) -> (r: u32)
    ensures
        r == max_u32(a, b),
{
    if a >= b {
        a
    } else {
        b
    }
}

impl Location {
    /// Merges two optional locations into the smallest one covering both.
    pub fn merge(lhs: &Option<Location>, rhs: &Option<Location>) -> (r: Option<Location>)
        ensures
            r == merged(*lhs, *rhs),
    {
        match (lhs, rhs) {
            (None, None) => None,
            (None, Some(rhs)) => Some(*rhs),
            (Some(lhs), None) => Some(*lhs),
            (Some(lhs), Some(rhs)) => {
                if lhs.file.index() != rhs.file.index() {
                    return None;
                }
                Some(
                    Location {
                        file: lhs.file,
                        start: min_of(lhs.start, rhs.start),
                        end: max_of(lhs.end, rhs.end),
                        line_start: min_of(lhs.line_start, rhs.line_start),
                        line_end: max_of(lhs.line_end, rhs.line_end),
                        char_start: min_of(lhs.char_start, rhs.char_start),
                        char_end: max_of(lhs.char_end, rhs.char_end),
                    },
                )
            },
        }
    }
}

/// Merging is commutative.
pub proof fn law_merge_commutative(a: Option<Location>, b: Option<Location>)
    ensures
        merged(a, b) == merged(b, a),
{
    if let (Some(l), Some(r)) = (a, b) {
        if l.file@ == r.file@ {
            crate::arena::lemma_default_id_injective(l.file, r.file);
        }
    }
}

/// Merging a location with itself gives it back.
pub proof fn law_merge_idempotent(a: Option<Location>)
    ensures
        merged(a, a) == a,
{
}

/// A missing location is the identity of merging.
pub proof fn law_merge_none_identity(a: Option<Location>)
    ensures
        merged(a, None) == a,
        merged(None, a) == a,
{
}

/// Merging locations of one file is associative.
pub proof fn law_merge_associative_same_file(a: Location, b: Location, c: Location)
    requires
        a.file@ == b.file@,
        b.file@ == c.file@,
    ensures
        merged(merged(Some(a), Some(b)), Some(c)) == merged(Some(a), merged(Some(b), Some(c))),
{
}

/// The merge of two locations of one file covers both.
pub proof fn law_merge_covers(a: Location, b: Location)
    requires
        a.file@ == b.file@,
    ensures
        merged(Some(a), Some(b)) matches Some(m) && m.start <= a.start && m.start <= b.start
            && m.end >= a.end && m.end >= b.end && m.line_start <= a.line_start && m.line_start
            <= b.line_start && m.line_end >= a.line_end && m.line_end >= b.line_end && m.char_start <= a.char_start
            && m.char_start <= b.char_start && m.char_end >= a.char_end && m.char_end >= b.char_end,
{
}

} // verus!

verus! {

/// An ASCII decimal digit.
pub open spec fn is_digit(b: u8) -> bool {
    48 <= b <= 57
}

/// An ASCII lower-case letter.
pub open spec fn is_lower(b: u8) -> bool {
    97 <= b <= 122
}

/// An ASCII upper-case letter.
pub open spec fn is_upper(b: u8) -> bool {
    65 <= b <= 90
}

/// A byte that is skipped between tokens: a space or a tab.
pub open spec fn is_blank(b: u8) -> bool {
    b == 32 || b == 9
}

/// A line break character: `\n`, `\x0c` or `\r`; each forms a token of its own.
pub open spec fn is_line_break(b: u8) -> bool {
    b == 10 || b == 12 || b == 13
}

/// A byte that may follow the first letter of a lower-case identifier.
pub open spec fn is_lident_rest(b: u8) -> bool {
    is_lower(b) || is_digit(b) || b == 95
}

/// A byte that may follow the first letter of an upper-case identifier.
pub open spec fn is_uident_rest(b: u8) -> bool {
    is_lower(b) || is_upper(b) || is_digit(b)
}

/// The end of the run of digits that starts at `i`.
pub open spec fn digits_end(src: Seq<u8>, i: nat) -> nat
    decreases src.len() - i,
{
    if i < src.len() && is_digit(src[i as int]) {
        digits_end(src, i + 1)
    } else {
        i
    }
}

/// The end of the run of lower-case identifier bytes that starts at `i`.
pub open spec fn lident_end(src: Seq<u8>, i: nat) -> nat
    decreases src.len() - i,
{
    if i < src.len() && is_lident_rest(src[i as int]) {
        lident_end(src, i + 1)
    } else {
        i
    }
}

/// The end of the run of upper-case identifier bytes that starts at `i`.
pub open spec fn uident_end(src: Seq<u8>, i: nat) -> nat
    decreases src.len() - i,
{
    if i < src.len() && is_uident_rest(src[i as int]) {
        uident_end(src, i + 1)
    } else {
        i
    }
}

/// The end of a quoted literal whose body starts at `i` and that is closed by
/// `quote`: the body holds no quote, backslash or line feed except that a
/// backslash escapes the byte after it. `None` when the literal is not closed.
pub open spec fn quoted_end(src: Seq<u8>, i: nat, quote: u8) -> Option<nat>
    decreases src.len() - i,
{
    if i >= src.len() {
        None
    } else if src[i as int] == quote {
        Some(i + 1)
    } else if src[i as int] == 92 {
        if i + 1 < src.len() {
            quoted_end(src, i + 2, quote)
        } else {
            None
        }
    } else if src[i as int] == 10 {
        None
    } else {
        quoted_end(src, i + 1, quote)
    }
}

/// The byte after `i`, if any.
pub open spec fn next_byte(src: Seq<u8>, i: nat) -> Option<u8> {
    if i + 1 < src.len() {
        Some(src[i + 1int])
    } else {
        None
    }
}

/// The punctuation token that starts at `i`, longest first, with its end.
pub open spec fn punctuation(src: Seq<u8>, i: nat) -> Option<(TokenKind, nat)> {
    let b = src[i as int];
    let n = next_byte(src, i);
    if b == 44 {
        Some((TokenKind::Comma, i + 1))
    } else if b == 61 {
        if n == Some(61u8) {
            Some((TokenKind::EqualsEquals, i + 2))
        } else {
            Some((TokenKind::Equals, i + 1))
        }
    } else if b == 58 {
        if n == Some(61u8) {
            Some((TokenKind::ColonEquals, i + 2))
        } else if n == Some(58u8) {
            Some((TokenKind::ColonColon, i + 2))
        } else {
            Some((TokenKind::Colon, i + 1))
        }
    } else if b == 46 {
        if n == Some(61u8) {
            Some((TokenKind::DotEquals, i + 2))
        } else if n == Some(46u8) {
            Some((TokenKind::DotDot, i + 2))
        } else {
            Some((TokenKind::Dot, i + 1))
        }
    } else if b == 33 {
        if n == Some(61u8) {
            Some((TokenKind::NotEquals, i + 2))
        } else {
            None
        }
    } else if b == 36 {
        Some((TokenKind::DollarSign, i + 1))
    } else if b == 59 {
        Some((TokenKind::Semicolon, i + 1))
    } else if b == 38 {
        Some((TokenKind::Ampersand, i + 1))
    } else if b == 63 {
        Some((TokenKind::QuestionMark, i + 1))
    } else if b == 60 {
        if n == Some(45u8) {
            Some((TokenKind::LeftArrow, i + 2))
        } else if n == Some(60u8) {
            Some((TokenKind::LShift, i + 2))
        } else if n == Some(61u8) {
            Some((TokenKind::LAngleEquals, i + 2))
        } else {
            Some((TokenKind::LAngle, i + 1))
        }
    } else if b == 62 {
        if n == Some(62u8) {
            Some((TokenKind::RShift, i + 2))
        } else if n == Some(61u8) {
            Some((TokenKind::RAngleEquals, i + 2))
        } else {
            Some((TokenKind::RAngle, i + 1))
        }
    } else if b == 45 {
        if n == Some(62u8) {
            Some((TokenKind::RightArrow, i + 2))
        } else if n == Some(45u8) {
            Some((TokenKind::MinusMinus, i + 2))
        } else {
            Some((TokenKind::Minus, i + 1))
        }
    } else if b == 124 {
        Some((TokenKind::Bar, i + 1))
    } else if b == 43 {
        if n == Some(43u8) {
            Some((TokenKind::PlusPlus, i + 2))
        } else {
            Some((TokenKind::Plus, i + 1))
        }
    } else if b == 42 {
        if n == Some(42u8) {
            Some((TokenKind::TimesTimes, i + 2))
        } else {
            Some((TokenKind::Times, i + 1))
        }
    } else if b == 47 {
        if n == Some(47u8) {
            Some((TokenKind::DivideDivide, i + 2))
        } else {
            Some((TokenKind::Divide, i + 1))
        }
    } else if b == 37 {
        Some((TokenKind::Percent, i + 1))
    } else if b == 40 {
        Some((TokenKind::LParen, i + 1))
    } else if b == 41 {
        Some((TokenKind::RParen, i + 1))
    } else if b == 123 {
        Some((TokenKind::LCurl, i + 1))
    } else if b == 125 {
        Some((TokenKind::RCurl, i + 1))
    } else if b == 91 {
        Some((TokenKind::LSquare, i + 1))
    } else if b == 93 {
        Some((TokenKind::RSquare, i + 1))
    } else {
        None
    }
}

/// The number of bytes of the character whose encoding starts with `b`.
pub open spec fn char_width(b: u8) -> nat {
    if b < 0x80 {
        1
    } else if b >= 0xF0 {
        4
    } else if b >= 0xE0 {
        3
    } else if b >= 0xC0 {
        2
    } else {
        1
    }
}

/// The token that starts at `i` (a byte that is not blank), with its end: the
/// longest match of the token rules, or an `Unknown` token spanning one
/// character where no rule matches.
pub open spec fn scan(src: Seq<u8>, i: nat) -> (TokenKind, nat) {
    let b = src[i as int];
    if is_line_break(b) {
        (TokenKind::Newline, i + 1)
    } else if is_digit(b) {
        let d = digits_end(src, i);
        if d + 1 < src.len() && src[d as int] == 46 && is_digit(src[d + 1int]) {
            (TokenKind::Float, digits_end(src, d + 1))
        } else {
            (TokenKind::Integer, d)
        }
    } else if is_lower(b) {
        (TokenKind::LIdent, lident_end(src, i + 1))
    } else if is_upper(b) {
        (TokenKind::UIdent, uident_end(src, i + 1))
    } else if b == 95 {
        (TokenKind::Underscore, i + 1)
    } else if b == 34 && quoted_end(src, i + 1, 34) is Some {
        (TokenKind::String, quoted_end(src, i + 1, 34).unwrap())
    } else if b == 39 && quoted_end(src, i + 1, 39) is Some {
        (TokenKind::Character, quoted_end(src, i + 1, 39).unwrap())
    } else if punctuation(src, i) is Some {
        punctuation(src, i).unwrap()
    } else {
        let w = char_width(b);
        (TokenKind::Unknown, if i + w <= src.len() { i + w } else { src.len() })
    }
}

/// The tokens of `src` from byte `i` on, each as its kind, start and end.
pub open spec fn lex_from(src: Seq<u8>, i: nat) -> Seq<(TokenKind, nat, nat)>
    decreases src.len() - i,
{
    if i >= src.len() {
        Seq::empty()
    } else if is_blank(src[i as int]) {
        lex_from(src, i + 1)
    } else {
        let (k, e) = scan(src, i);
        let e2 = if i < e && e <= src.len() { e } else { i + 1 };
        seq![(k, i, e2)] + lex_from(src, e2)
    }
}

/// The number of line-break tokens among the first `k` tokens.
pub open spec fn line_breaks(toks: Seq<(TokenKind, nat, nat)>, k: nat) -> nat
    decreases k,
{
    if k == 0 || k > toks.len() {
        0
    } else {
        line_breaks(toks, (k - 1) as nat) + if toks[k - 1].0 == TokenKind::Newline {
            1nat
        } else {
            0nat
        }
    }
}

/// Where the line of token `k` begins: the end of the last line break before
/// it, or 0.
pub open spec fn line_begin(toks: Seq<(TokenKind, nat, nat)>, k: nat) -> nat
    decreases k,
{
    if k == 0 || k > toks.len() {
        0
    } else if toks[k - 1].0 == TokenKind::Newline {
        toks[k - 1].2
    } else {
        line_begin(toks, (k - 1) as nat)
    }
}

/// The number of `Unknown` tokens among the first `k` tokens.
pub open spec fn unknowns(toks: Seq<(TokenKind, nat, nat)>, k: nat) -> nat
    decreases k,
{
    if k == 0 || k > toks.len() {
        0
    } else {
        unknowns(toks, (k - 1) as nat) + if toks[k - 1].0 == TokenKind::Unknown {
            1nat
        } else {
            0nat
        }
    }
}

/// The location of token `k` of file `file`: its byte span, its line (one
/// more than the line breaks before it) and its one-based columns.
pub open spec fn token_location(toks: Seq<(TokenKind, nat, nat)>, k: nat, file: FileId) -> Location {
    let (kind, s, e) = toks[k as int];
    let line = (1 + line_breaks(toks, k)) as u32;
    let col = (1 + s - line_begin(toks, k)) as u32;
    Location {
        file,
        start: s as u32,
        end: e as u32,
        line_start: line,
        line_end: line,
        char_start: col,
        char_end: (col + (e - s) - 1) as u32,
    }
}

/// The text of an unrecognized span: its characters where it is valid UTF-8.
pub open spec fn span_text(bytes: Seq<u8>) -> Seq<char> {
    if vstd::utf8::valid_utf8(bytes) {
        vstd::utf8::decode_utf8(bytes)
    } else {
        Seq::empty()
    }
}

/// The message reported for an unrecognized span.
pub open spec fn unrecognized_message(bytes: Seq<u8>) -> Seq<char> {
    "Unrecognized token '"@ + span_text(bytes) + "'"@
}

} // verus!

verus! {

/// The scanning helpers never move backwards and never pass the end.
pub proof fn lemma_run_ends(src: Seq<u8>, i: nat)
    requires
        i <= src.len(),
    ensures
        i <= digits_end(src, i) <= src.len(),
        i <= lident_end(src, i) <= src.len(),
        i <= uident_end(src, i) <= src.len(),
    decreases src.len() - i,
{
    if i < src.len() {
        lemma_run_ends(src, i + 1);
    }
}

/// A closed quoted literal ends after its body starts and within the source.
pub proof fn lemma_quoted_end(src: Seq<u8>, i: nat, quote: u8)
    ensures
        quoted_end(src, i, quote) matches Some(e) ==> i < e <= src.len(),
    decreases src.len() - i,
{
    if i < src.len() {
        if src[i as int] != quote && src[i as int] == 92 && i + 1 < src.len() {
            lemma_quoted_end(src, i + 2, quote);
        } else if src[i as int] != quote && src[i as int] != 92 && src[i as int] != 10 {
            lemma_quoted_end(src, i + 1, quote);
        }
    }
}

/// Every token is non-empty and lies within the source.
pub proof fn lemma_scan_end(src: Seq<u8>, i: nat)
    requires
        i < src.len(),
    ensures
        i < scan(src, i).1 <= src.len(),
{
    lemma_run_ends(src, i);
    lemma_run_ends(src, i + 1);
    lemma_quoted_end(src, i + 1, 34);
    lemma_quoted_end(src, i + 1, 39);
    let d = digits_end(src, i);
    if d + 1 < src.len() {
        lemma_run_ends(src, d + 1);
    }
}

fn digit(b: u8) -> (r: bool)
    ensures
        r == is_digit(b),
{
    48 <= b && b <= 57
}

fn lident_rest(b: u8) -> (r: bool)
    ensures
        r == is_lident_rest(b),
{
    (97 <= b && b <= 122) || (48 <= b && b <= 57) || b == 95
}

fn uident_rest(b: u8) -> (r: bool)
    ensures
        r == is_uident_rest(b),
{
    (97 <= b && b <= 122) || (65 <= b && b <= 90) || (48 <= b && b <= 57)
}

fn scan_digits(src: &[u8], i: usize) -> (r: usize)
    requires
        i <= src@.len(),
    ensures
        r == digits_end(src@, i as nat),
{
    let mut j = i;
    while j < src.len() && digit(src[j])
        invariant
            i <= j <= src@.len(),
            digits_end(src@, j as nat) == digits_end(src@, i as nat),
        decreases src@.len() - j,
    {
        j = j + 1;
    }
    j
}

fn scan_lident(src: &[u8], i: usize) -> (r: usize)
    requires
        i <= src@.len(),
    ensures
        r == lident_end(src@, i as nat),
{
    let mut j = i;
    while j < src.len() && lident_rest(src[j])
        invariant
            i <= j <= src@.len(),
            lident_end(src@, j as nat) == lident_end(src@, i as nat),
        decreases src@.len() - j,
    {
        j = j + 1;
    }
    j
}

fn scan_uident(src: &[u8], i: usize) -> (r: usize)
    requires
        i <= src@.len(),
    ensures
        r == uident_end(src@, i as nat),
{
    let mut j = i;
    while j < src.len() && uident_rest(src[j])
        invariant
            i <= j <= src@.len(),
            uident_end(src@, j as nat) == uident_end(src@, i as nat),
        decreases src@.len() - j,
    {
        j = j + 1;
    }
    j
}

fn scan_quoted(src: &[u8], i: usize, quote: u8) -> (r: Option<usize>)
    requires
        i <= src@.len(),
    ensures
        r matches Some(e) ==> quoted_end(src@, i as nat, quote) == Some(e as nat),
        r is None ==> quoted_end(src@, i as nat, quote) is None,
{
    let mut j = i;
    loop
        invariant
            i <= j <= src@.len(),
            quoted_end(src@, j as nat, quote) == quoted_end(src@, i as nat, quote),
        decreases src@.len() - j,
    {
        if j >= src.len() {
            return None;
        }
        let b = src[j];
        if b == quote {
            return Some(j + 1);
        } else if b == 92 {
            if j + 1 < src.len() {
                j = j + 2;
            } else {
                return None;
            }
        } else if b == 10 {
            return None;
        } else {
            j = j + 1;
        }
    }
}

fn scan_punctuation(src: &[u8], i: usize) -> (r: Option<(TokenKind, usize)>)
    requires
        i < src@.len(),
    ensures
        r matches Some(p) ==> punctuation(src@, i as nat) == Some((p.0, p.1 as nat)),
        r is None ==> punctuation(src@, i as nat) is None,
{
    let b = src[i];
    let n: Option<u8> = if i + 1 < src.len() {
        Some(src[i + 1])
    } else {
        None
    };
    let one = i + 1;
    let two = if n.is_some() {
        i + 2
    } else {
        one
    };
    if b == 44 {
        Some((TokenKind::Comma, one))
    } else if b == 61 {
        if n == Some(61u8) {
            Some((TokenKind::EqualsEquals, two))
        } else {
            Some((TokenKind::Equals, one))
        }
    } else if b == 58 {
        if n == Some(61u8) {
            Some((TokenKind::ColonEquals, two))
        } else if n == Some(58u8) {
            Some((TokenKind::ColonColon, two))
        } else {
            Some((TokenKind::Colon, one))
        }
    } else if b == 46 {
        if n == Some(61u8) {
            Some((TokenKind::DotEquals, two))
        } else if n == Some(46u8) {
            Some((TokenKind::DotDot, two))
        } else {
            Some((TokenKind::Dot, one))
        }
    } else if b == 33 {
        if n == Some(61u8) {
            Some((TokenKind::NotEquals, two))
        } else {
            None
        }
    } else if b == 36 {
        Some((TokenKind::DollarSign, one))
    } else if b == 59 {
        Some((TokenKind::Semicolon, one))
    } else if b == 38 {
        Some((TokenKind::Ampersand, one))
    } else if b == 63 {
        Some((TokenKind::QuestionMark, one))
    } else if b == 60 {
        if n == Some(45u8) {
            Some((TokenKind::LeftArrow, two))
        } else if n == Some(60u8) {
            Some((TokenKind::LShift, two))
        } else if n == Some(61u8) {
            Some((TokenKind::LAngleEquals, two))
        } else {
            Some((TokenKind::LAngle, one))
        }
    } else if b == 62 {
        if n == Some(62u8) {
            Some((TokenKind::RShift, two))
        } else if n == Some(61u8) {
            Some((TokenKind::RAngleEquals, two))
        } else {
            Some((TokenKind::RAngle, one))
        }
    } else if b == 45 {
        if n == Some(62u8) {
            Some((TokenKind::RightArrow, two))
        } else if n == Some(45u8) {
            Some((TokenKind::MinusMinus, two))
        } else {
            Some((TokenKind::Minus, one))
        }
    } else if b == 124 {
        Some((TokenKind::Bar, one))
    } else if b == 43 {
        if n == Some(43u8) {
            Some((TokenKind::PlusPlus, two))
        } else {
            Some((TokenKind::Plus, one))
        }
    } else if b == 42 {
        if n == Some(42u8) {
            Some((TokenKind::TimesTimes, two))
        } else {
            Some((TokenKind::Times, one))
        }
    } else if b == 47 {
        if n == Some(47u8) {
            Some((TokenKind::DivideDivide, two))
        } else {
            Some((TokenKind::Divide, one))
        }
    } else if b == 37 {
        Some((TokenKind::Percent, one))
    } else if b == 40 {
        Some((TokenKind::LParen, one))
    } else if b == 41 {
        Some((TokenKind::RParen, one))
    } else if b == 123 {
        Some((TokenKind::LCurl, one))
    } else if b == 125 {
        Some((TokenKind::RCurl, one))
    } else if b == 91 {
        Some((TokenKind::LSquare, one))
    } else if b == 93 {
        Some((TokenKind::RSquare, one))
    } else {
        None
    }
}

/// Recognizes the token that starts at byte `i`, which must not be blank.
pub fn scan_token(src: &[u8], i: usize) -> (r: (TokenKind, usize))
    requires
        i < src@.len(),
    ensures
        (r.0, r.1 as nat) == scan(src@, i as nat),
        i < r.1 <= src@.len(),
{
    proof {
        lemma_scan_end(src@, i as nat);
    }
    let b = src[i];
    if b == 10 || b == 12 || b == 13 {
        (TokenKind::Newline, i + 1)
    } else if digit(b) {
        let d = scan_digits(src, i);
        proof {
            lemma_run_ends(src@, i as nat);
        }
        if d < src.len() && src.len() - d > 1 && src[d] == 46 && digit(src[d + 1]) {
            (TokenKind::Float, scan_digits(src, d + 1))
        } else {
            (TokenKind::Integer, d)
        }
    } else if 97 <= b && b <= 122 {
        (TokenKind::LIdent, scan_lident(src, i + 1))
    } else if 65 <= b && b <= 90 {
        (TokenKind::UIdent, scan_uident(src, i + 1))
    } else if b == 95 {
        (TokenKind::Underscore, i + 1)
    } else {
        let quoted = if b == 34 || b == 39 {
            scan_quoted(src, i + 1, b)
        } else {
            None
        };
        if let Some(e) = quoted {
            if b == 34 {
                (TokenKind::String, e)
            } else {
                (TokenKind::Character, e)
            }
        } else {
            match scan_punctuation(src, i) {
                Some(p) => p,
                None => {
                    let w: usize = if b < 0x80 {
                        1
                    } else if b >= 0xF0 {
                        4
                    } else if b >= 0xE0 {
                        3
                    } else if b >= 0xC0 {
                        2
                    } else {
                        1
                    };
                    if w <= src.len() - i {
                        (TokenKind::Unknown, i + w)
                    } else {
                        (TokenKind::Unknown, src.len())
                    }
                },
            }
        }
    }
}

} // verus!

verus! {

/// The text of a byte slice when the slice is valid UTF-8 (`std::str::from_utf8`,
/// which the standard library documents to succeed exactly on valid UTF-8 and
/// to give the characters those bytes encode).
#[verifier::external_body]
fn str_from_utf8(bytes: &[u8]) -> (r: Option<&str>)
    ensures
        r is Some <==> vstd::utf8::valid_utf8(bytes@),
        r matches Some(s) ==> s@ == vstd::utf8::decode_utf8(bytes@),
{
    match std::str::from_utf8(bytes) {
        Ok(s) => Some(s),
        Err(_) => None,
    }
}

/// The bytes of the contents of `file`.
pub open spec fn source_bytes(files: &Files, file: FileId) -> Seq<u8> {
    vstd::utf8::encode_utf8(files.source_of(file@))
}

/// The error message for an unrecognized span of source bytes.
fn unrecognized(span: &[u8]) -> (r: String)
    ensures
        r@ == unrecognized_message(span@),
{
    let mut msg = "Unrecognized token '".to_owned();
    match str_from_utf8(span) {
        Some(text) => msg.append(text),
        None => {},
    }
    msg.append("'");
    msg
}

/// Tokens `0..k` of `tokens` are the first `k` tokens of `toks`, located in `file`.
pub open spec fn tokens_prefix(tokens: Tokens, toks: Seq<(TokenKind, nat, nat)>, k: nat, file: FileId) -> bool {
    &&& tokens.wf()
    &&& tokens.ids.allocated() == k
    &&& tokens.kinds.slots().len() == k
    &&& tokens.locations.slots().len() == k
    &&& forall|j: int|
        0 <= j < k ==> tokens.kinds.slots()[j] == toks[j].0 && tokens.locations.slots()[j]
            == Some(token_location(toks, j as nat, file))
}

/// `errors` is `old` with one lexical error for each `Unknown` token among the
/// first `k` tokens of `toks`, in order.
pub open spec fn errors_prefix(
    errors: Errors,
    old: Errors,
    toks: Seq<(TokenKind, nat, nat)>,
    k: nat,
    bytes: Seq<u8>,
    file: FileId,
) -> bool {
    &&& errors.wf()
    &&& errors.count() == old.count() + unknowns(toks, k)
    &&& Errors::same_before(old, errors, old.count())
    &&& forall|j: nat| j < k ==> #[trigger] unknown_reported(errors, old, toks, j, bytes, file)
    &&& forall|e: nat| e >= errors.count() ==> #[trigger] untouched(errors, old, e)
}

/// Error `e` has the location and cause it had in `old`.
pub open spec fn untouched(errors: Errors, old: Errors, e: nat) -> bool {
    errors.location_of(e) == old.location_of(e) && errors.cause_of(e) == old.cause_of(e)
}

/// If token `j` of `toks` is `Unknown`, then the error reported for it (the one
/// after the errors of `old` and of the earlier `Unknown` tokens) is a lexical
/// error with the message and location of that token.
pub open spec fn unknown_reported(
    errors: Errors,
    old: Errors,
    toks: Seq<(TokenKind, nat, nat)>,
    j: nat,
    bytes: Seq<u8>,
    file: FileId,
) -> bool {
    toks[j as int].0 == TokenKind::Unknown ==> {
        let e = old.count() + unknowns(toks, j);
        &&& errors.kind_of(e) == ErrorKind::Lex
        &&& errors.message_of(e) == unrecognized_message(
            bytes.subrange(toks[j as int].1 as int, toks[j as int].2 as int),
        )
        &&& errors.location_of(e) == Some(token_location(toks, j, file))
        &&& errors.cause_of(e) == old.cause_of(e)
    }
}

/// Lexing a non-blank byte produces one token and continues after it.
proof fn lemma_lex_step(bytes: Seq<u8>, toks: Seq<(TokenKind, nat, nat)>, k: nat, i: nat)
    requires
        k <= toks.len(),
        i < bytes.len(),
        !is_blank(bytes[i as int]),
        toks.subrange(k as int, toks.len() as int) == lex_from(bytes, i),
    ensures
        k < toks.len(),
        toks[k as int] == (scan(bytes, i).0, i, scan(bytes, i).1),
        toks.subrange(k + 1int, toks.len() as int) == lex_from(bytes, scan(bytes, i).1),
{
    lemma_scan_end(bytes, i);
    let e = scan(bytes, i).1;
    let rest = lex_from(bytes, i);
    assert(rest == seq![(scan(bytes, i).0, i, e)] + lex_from(bytes, e));
    assert(rest.len() > 0);
    assert(toks[k as int] == rest[0]);
    assert(toks.subrange(k + 1int, toks.len() as int) =~= rest.subrange(1, rest.len() as int));
    assert(rest.subrange(1, rest.len() as int) =~= lex_from(bytes, e));
}

/// Appends a token with its kind and location.
fn push_token(tokens: &mut Tokens, kind: TokenKind, location: Location)
    requires
        old(tokens).wf(),
        old(tokens).ids.allocated() == old(tokens).kinds.slots().len(),
        old(tokens).ids.allocated() == old(tokens).locations.slots().len(),
        old(tokens).ids.allocated() < 4294967295,
    ensures
        final(tokens).wf(),
        final(tokens).ids.allocated() == old(tokens).ids.allocated() + 1,
        final(tokens).kinds.slots() == old(tokens).kinds.slots().push(kind),
        final(tokens).locations.slots() == old(tokens).locations.slots().push(Some(location)),
{
    proof {
        crate::arena::lemma_world_space(tokens.ids);
    }
    let id = tokens.ids.allocate();
    id.put(&mut tokens.kinds, kind);
    id.put(&mut tokens.locations, Some(location));
    assert(tokens.kinds.slots() =~= old(tokens).kinds.slots().push(kind));
    assert(tokens.locations.slots() =~= old(tokens).locations.slots().push(Some(location)));
}

/// Reports an unrecognized span as a lexical error at `location`.
fn report_unknown(errors: &mut Errors, span: &[u8], location: Location)
    requires
        old(errors).wf(),
        old(errors).has_room_for(1),
    ensures
        final(errors).wf(),
        final(errors).count() == old(errors).count() + 1,
        final(errors).kind_of(old(errors).count()) == ErrorKind::Lex,
        final(errors).message_of(old(errors).count()) == unrecognized_message(span@),
        final(errors).location_of(old(errors).count()) == Some(location),
        final(errors).cause_of(old(errors).count()) == old(errors).cause_of(old(errors).count()),
        Errors::same_before(*old(errors), *final(errors), old(errors).count()),
        forall|e: nat|
            e > old(errors).count() ==> final(errors).location_of(e) == old(errors).location_of(e)
                && final(errors).cause_of(e) == old(errors).cause_of(e),
{
    let msg = unrecognized(span);
    errors.log(ErrorKind::Lex, msg).location(location);
}

/// The location of token `k`, computed from the running line count and line start.
proof fn lemma_location_fits(toks: Seq<(TokenKind, nat, nat)>, k: nat, file: FileId, line: u32, begin: nat)
    requires
        k < toks.len(),
        toks[k as int].1 < toks[k as int].2 < 4294967295,
        begin <= toks[k as int].1,
        line == 1 + line_breaks(toks, k),
        begin == line_begin(toks, k),
    ensures
        ({
            let (kind, s, e) = toks[k as int];
            let col = (1 + s - begin) as u32;
            token_location(toks, k, file) == Location {
                file,
                start: s as u32,
                end: e as u32,
                line_start: line,
                line_end: line,
                char_start: col,
                char_end: (col + (e - s) - 1) as u32,
            }
        }),
{
}

/// Splits the contents of `file` into tokens. Blanks (spaces and tabs) separate
/// tokens; every other byte belongs to a token. Each token gets its kind and
/// location; a span that starts no token becomes an `Unknown` token and is
/// reported as a lexical error at that location.
pub fn lex_file(file: FileId, files: &Files, errors: &mut Errors) -> (tokens: Tokens)
    requires
        files.wf(),
        old(errors).wf(),
        source_bytes(files, file).len() < 4294967295,
        old(errors).has_room_for(source_bytes(files, file).len()),
    ensures
        tokens_prefix(tokens, lex_from(source_bytes(files, file), 0), lex_from(source_bytes(files, file), 0).len(), file),
        errors_prefix(*final(errors), *old(errors), lex_from(source_bytes(files, file), 0), lex_from(source_bytes(files, file), 0).len(), source_bytes(files, file), file),
{
    let mut tokens = Tokens::new();
    let source: &String = file.get(&files.sources);
    let src: &[u8] = source.as_str().as_bytes();
    let ghost bytes = src@;
    let ghost toks = lex_from(bytes, 0);
    let len = src.len();
    let mut i: usize = 0;
    let mut k: usize = 0;
    let mut line: u32 = 1;
    let mut begin: usize = 0;
    proof {
        assert(toks.subrange(0, toks.len() as int) == toks);
    }
    while i < len
        invariant
            bytes == src@,
            bytes == source_bytes(files, file),
            toks == lex_from(bytes, 0),
            len == bytes.len(),
            len < 4294967295,
            k <= i <= len,
            k <= toks.len(),
            toks.subrange(k as int, toks.len() as int) == lex_from(bytes, i as nat),
            line == 1 + line_breaks(toks, k as nat),
            begin == line_begin(toks, k as nat),
            begin <= i,
            line <= 1 + k,
            unknowns(toks, k as nat) <= k,
            old(errors).has_room_for(len as nat),
            tokens_prefix(tokens, toks, k as nat, file),
            errors_prefix(*errors, *old(errors), toks, k as nat, bytes, file),
        decreases len - i,
    {
        if src[i] == 32 || src[i] == 9 {
            i = i + 1;
            continue;
        }
        let (kind, end) = scan_token(src, i);
        proof {
            lemma_lex_step(bytes, toks, k as nat, i as nat);
            lemma_location_fits(toks, k as nat, file, line, begin as nat);
        }
        let width = end - i;
        let col: u32 = (1 + (i - begin)) as u32;
        let location = Location {
            file,
            start: i as u32,
            end: end as u32,
            line_start: line,
            line_end: line,
            char_start: col,
            char_end: col + (width as u32) - 1,
        };
        let ghost errs_before = *errors;
        let ghost tokens_before = tokens;
        if kind == TokenKind::Unknown {
            report_unknown(errors, &src[i..end], location);
        }
        push_token(&mut tokens, kind, location);
        proof {
            lemma_lex_counts_step(toks, k as nat);
            lemma_tokens_step(tokens_before, tokens, toks, k as nat, file, location);
            lemma_errors_step(errs_before, *errors, *old(errors), toks, k as nat, bytes, file, location);
        }
        if kind == TokenKind::Newline {
            line = line + 1;
            begin = end;
        }
        i = end;
        k = k + 1;
    }
    proof {
        assert(toks.subrange(k as int, toks.len() as int).len() == 0);
    }
    tokens
}

/// The running counts over the tokens grow by the kind of the next token.
proof fn lemma_lex_counts_step(toks: Seq<(TokenKind, nat, nat)>, k: nat)
    requires
        k < toks.len(),
    ensures
        line_breaks(toks, k + 1) == line_breaks(toks, k) + if toks[k as int].0 == TokenKind::Newline { 1nat } else { 0nat },
        line_begin(toks, k + 1) == if toks[k as int].0 == TokenKind::Newline { toks[k as int].2 } else { line_begin(toks, k) },
        unknowns(toks, k + 1) == unknowns(toks, k) + if toks[k as int].0 == TokenKind::Unknown { 1nat } else { 0nat },
{
}

/// Appending token `k` extends the token prefix.
proof fn lemma_tokens_step(
    tokens_before: Tokens,
    tokens: Tokens,
    toks: Seq<(TokenKind, nat, nat)>,
    k: nat,
    file: FileId,
    location: Location,
)
    requires
        k < toks.len(),
        location == token_location(toks, k, file),
        tokens_prefix(tokens_before, toks, k, file),
        tokens.wf(),
        tokens.ids.allocated() == k + 1,
        tokens.kinds.slots() == tokens_before.kinds.slots().push(toks[k as int].0),
        tokens.locations.slots() == tokens_before.locations.slots().push(Some(location)),
    ensures
        tokens_prefix(tokens, toks, k + 1, file),
{
    assert forall|j: int|
        0 <= j < k + 1 implies tokens.kinds.slots()[j] == toks[j].0 && tokens.locations.slots()[j]
        == Some(token_location(toks, j as nat, file)) by {
        if j < k {
            assert(tokens.kinds.slots()[j] == tokens_before.kinds.slots()[j]);
            assert(tokens.locations.slots()[j] == tokens_before.locations.slots()[j]);
        }
    }
}

/// Reporting token `k`'s error, for an `Unknown` token, extends the error prefix.
#[verifier::rlimit(40)]
proof fn lemma_errors_step(
    errs_before: Errors,
    errs: Errors,
    old: Errors,
    toks: Seq<(TokenKind, nat, nat)>,
    k: nat,
    bytes: Seq<u8>,
    file: FileId,
    location: Location,
)
    requires
        k < toks.len(),
        location == token_location(toks, k, file),
        errors_prefix(errs_before, old, toks, k, bytes, file),
        toks[k as int].0 != TokenKind::Unknown ==> errs == errs_before,
        toks[k as int].0 == TokenKind::Unknown ==> {
            &&& errs.wf()
            &&& errs.count() == errs_before.count() + 1
            &&& errs.kind_of(errs_before.count()) == ErrorKind::Lex
            &&& errs.message_of(errs_before.count()) == unrecognized_message(
                bytes.subrange(toks[k as int].1 as int, toks[k as int].2 as int),
            )
            &&& errs.location_of(errs_before.count()) == Some(location)
            &&& errs.cause_of(errs_before.count()) == errs_before.cause_of(errs_before.count())
            &&& Errors::same_before(errs_before, errs, errs_before.count())
            &&& forall|e: nat|
                e > errs_before.count() ==> errs.location_of(e) == errs_before.location_of(e)
                    && errs.cause_of(e) == errs_before.cause_of(e)
        },
    ensures
        errors_prefix(errs, old, toks, k + 1, bytes, file),
{
    lemma_lex_counts_step(toks, k);
    if toks[k as int].0 != TokenKind::Unknown {
        assert forall|j: nat| j < k + 1 implies #[trigger] unknown_reported(errs, old, toks, j, bytes, file) by {
            if j < k {
                assert(unknown_reported(errs_before, old, toks, j, bytes, file));
            }
        }
    } else {
        let c = errs_before.count();
        assert forall|i: nat| i < old.count() implies errs.kind_of(i) == old.kind_of(i)
            && errs.message_of(i) == old.message_of(i) && errs.location_of(i) == old.location_of(i)
            && errs.cause_of(i) == old.cause_of(i) by {
            assert(i < c);
        }
        assert forall|j: nat| j < k + 1 implies #[trigger] unknown_reported(errs, old, toks, j, bytes, file) by {
            if j < k {
                assert(unknown_reported(errs_before, old, toks, j, bytes, file));
                if toks[j as int].0 == TokenKind::Unknown {
                    lemma_lex_counts_step(toks, j);
                    lemma_unknowns_monotone(toks, j + 1, k);
                    let e = old.count() + unknowns(toks, j);
                    assert(e < c);
                }
            } else {
                assert(untouched(errs_before, old, c));
            }
        }
        assert forall|e: nat| e >= errs.count() implies #[trigger] untouched(errs, old, e) by {
            assert(untouched(errs_before, old, e));
        }
    }
}

/// The count of `Unknown` tokens grows with the prefix.
proof fn lemma_unknowns_monotone(toks: Seq<(TokenKind, nat, nat)>, a: nat, b: nat)
    requires
        a <= b <= toks.len(),
    ensures
        unknowns(toks, a) <= unknowns(toks, b),
    decreases b - a,
{
    if a < b {
        lemma_unknowns_monotone(toks, a, (b - 1) as nat);
    }
}


/// The operator characters scan to their own tokens: a lone `<` to `LAngle`
/// and a lone `>` to `RAngle` (each one byte long), `<=` and `>=` to the
/// two-byte orderings, `==` and `!=` to the equalities, and a lone `+`, `-`,
/// `*` or `/` to `Plus`, `Minus`, `Times` or `Divide`.
pub proof fn law_operator_characters(src: Seq<u8>, i: nat)
    requires
        i < src.len(),
    ensures
        src[i as int] == 60 && next_byte(src, i) != Some(45u8) && next_byte(src, i) != Some(60u8) && next_byte(src, i)
            != Some(61u8) ==> scan(src, i) == (TokenKind::LAngle, i + 1),
        src[i as int] == 62 && next_byte(src, i) != Some(62u8) && next_byte(src, i) != Some(61u8) ==> scan(src, i) == (
        TokenKind::RAngle, i + 1),
        src[i as int] == 60 && next_byte(src, i) == Some(61u8) ==> scan(src, i) == (TokenKind::LAngleEquals, i + 2),
        src[i as int] == 62 && next_byte(src, i) == Some(61u8) ==> scan(src, i) == (TokenKind::RAngleEquals, i + 2),
        src[i as int] == 61 && next_byte(src, i) == Some(61u8) ==> scan(src, i) == (TokenKind::EqualsEquals, i + 2),
        src[i as int] == 33 && next_byte(src, i) == Some(61u8) ==> scan(src, i) == (TokenKind::NotEquals, i + 2),
        src[i as int] == 43 && next_byte(src, i) != Some(43u8) ==> scan(src, i) == (TokenKind::Plus, i + 1),
        src[i as int] == 45 && next_byte(src, i) != Some(62u8) && next_byte(src, i) != Some(45u8) ==> scan(src, i) == (
        TokenKind::Minus, i + 1),
        src[i as int] == 42 && next_byte(src, i) != Some(42u8) ==> scan(src, i) == (TokenKind::Times, i + 1),
        src[i as int] == 47 && next_byte(src, i) != Some(47u8) ==> scan(src, i) == (TokenKind::Divide, i + 1),
{
}

/// The merge of two locations of one file is the tightest span covering
/// both: each bound, of bytes, lines and columns, is the outer one of the two.
pub proof fn law_merge_tightest(a: Location, b: Location)
    requires
        a.file@ == b.file@,
    ensures
        merged(Some(a), Some(b)) matches Some(m) && {
            &&& m.file == a.file
            &&& m.start <= a.start && m.start <= b.start && (m.start == a.start || m.start == b.start)
            &&& m.end >= a.end && m.end >= b.end && (m.end == a.end || m.end == b.end)
            &&& m.line_start <= a.line_start && m.line_start <= b.line_start && (m.line_start == a.line_start
                || m.line_start == b.line_start)
            &&& m.line_end >= a.line_end && m.line_end >= b.line_end && (m.line_end == a.line_end || m.line_end
                == b.line_end)
            &&& m.char_start <= a.char_start && m.char_start <= b.char_start && (m.char_start == a.char_start
                || m.char_start == b.char_start)
            &&& m.char_end >= a.char_end && m.char_end >= b.char_end && (m.char_end == a.char_end || m.char_end
                == b.char_end)
        },
{
}


/// The bracket and separator characters scan to their own one-byte tokens,
/// and the two-byte operators to theirs.
pub proof fn law_punctuation_characters(src: Seq<u8>, i: nat)
    requires
        i < src.len(),
    ensures
        src[i as int] == 40 ==> scan(src, i) == (TokenKind::LParen, i + 1),
        src[i as int] == 41 ==> scan(src, i) == (TokenKind::RParen, i + 1),
        src[i as int] == 91 ==> scan(src, i) == (TokenKind::LSquare, i + 1),
        src[i as int] == 93 ==> scan(src, i) == (TokenKind::RSquare, i + 1),
        src[i as int] == 123 ==> scan(src, i) == (TokenKind::LCurl, i + 1),
        src[i as int] == 125 ==> scan(src, i) == (TokenKind::RCurl, i + 1),
        src[i as int] == 44 ==> scan(src, i) == (TokenKind::Comma, i + 1),
        src[i as int] == 59 ==> scan(src, i) == (TokenKind::Semicolon, i + 1),
        src[i as int] == 63 ==> scan(src, i) == (TokenKind::QuestionMark, i + 1),
        src[i as int] == 36 ==> scan(src, i) == (TokenKind::DollarSign, i + 1),
        src[i as int] == 38 ==> scan(src, i) == (TokenKind::Ampersand, i + 1),
        src[i as int] == 124 ==> scan(src, i) == (TokenKind::Bar, i + 1),
        src[i as int] == 37 ==> scan(src, i) == (TokenKind::Percent, i + 1),
        src[i as int] == 61 && next_byte(src, i) != Some(61u8) ==> scan(src, i) == (TokenKind::Equals, i + 1),
        src[i as int] == 58 && next_byte(src, i) != Some(61u8) && next_byte(src, i) != Some(58u8) ==> scan(src, i) == (
        TokenKind::Colon, i + 1),
        src[i as int] == 58 && next_byte(src, i) == Some(61u8) ==> scan(src, i) == (TokenKind::ColonEquals, i + 2),
        src[i as int] == 58 && next_byte(src, i) == Some(58u8) ==> scan(src, i) == (TokenKind::ColonColon, i + 2),
        src[i as int] == 46 && next_byte(src, i) != Some(61u8) && next_byte(src, i) != Some(46u8) ==> scan(src, i) == (
        TokenKind::Dot, i + 1),
        src[i as int] == 46 && next_byte(src, i) == Some(61u8) ==> scan(src, i) == (TokenKind::DotEquals, i + 2),
        src[i as int] == 46 && next_byte(src, i) == Some(46u8) ==> scan(src, i) == (TokenKind::DotDot, i + 2),
        src[i as int] == 60 && next_byte(src, i) == Some(45u8) ==> scan(src, i) == (TokenKind::LeftArrow, i + 2),
        src[i as int] == 60 && next_byte(src, i) == Some(60u8) ==> scan(src, i) == (TokenKind::LShift, i + 2),
        src[i as int] == 62 && next_byte(src, i) == Some(62u8) ==> scan(src, i) == (TokenKind::RShift, i + 2),
        src[i as int] == 45 && next_byte(src, i) == Some(62u8) ==> scan(src, i) == (TokenKind::RightArrow, i + 2),
        src[i as int] == 45 && next_byte(src, i) == Some(45u8) ==> scan(src, i) == (TokenKind::MinusMinus, i + 2),
        src[i as int] == 43 && next_byte(src, i) == Some(43u8) ==> scan(src, i) == (TokenKind::PlusPlus, i + 2),
        src[i as int] == 42 && next_byte(src, i) == Some(42u8) ==> scan(src, i) == (TokenKind::TimesTimes, i + 2),
        src[i as int] == 47 && next_byte(src, i) == Some(47u8) ==> scan(src, i) == (TokenKind::DivideDivide, i + 2),
{
}

} // verus!
