//! What the scanner emits for a byte sequence, stated as spec functions.
use vstd::prelude::*;
use vstd::utf8::{
    decode_utf8, is_char_boundary, is_char_boundary_iff_not_is_continuation_byte,
    is_char_boundary_start_end_of_seq, pop_first_scalar, valid_first_scalar, valid_utf8,
    valid_utf8_split,
};

use crate::token::{spelling, Error, Keyword, NumberView, TypeView};

verus! {

pub open spec fn is_digit(c: u8) -> bool {
    '0' as u8 <= c <= '9' as u8
}

pub open spec fn is_alpha(c: u8) -> bool {
    ('a' as u8 <= c <= 'z' as u8) || ('A' as u8 <= c <= 'Z' as u8)
}

pub open spec fn is_whitespace(c: u8) -> bool {
    c == ' ' as u8 || c == '\t' as u8 || c == '\r' as u8 || c == '\n' as u8
}

/// The kind of a byte that is a token on its own, whatever follows it.
pub open spec fn punctuation(c: u8) -> Option<TypeView> {
    if c == '(' as u8 {
        Some(TypeView::LeftParen)
    } else if c == ')' as u8 {
        Some(TypeView::RightParen)
    } else if c == '{' as u8 {
        Some(TypeView::LeftBrace)
    } else if c == '}' as u8 {
        Some(TypeView::RightBrace)
    } else if c == ',' as u8 {
        Some(TypeView::Comma)
    } else if c == '.' as u8 {
        Some(TypeView::Dot)
    } else if c == '-' as u8 {
        Some(TypeView::Minus)
    } else if c == '+' as u8 {
        Some(TypeView::Plus)
    } else if c == ';' as u8 {
        Some(TypeView::Semicolon)
    } else if c == '*' as u8 {
        Some(TypeView::Star)
    } else {
        None
    }
}

/// The keyword that `w` spells, if any.
pub open spec fn keyword_of(w: Seq<u8>) -> Option<Keyword> {
    if w == spelling(Keyword::And) {
        Some(Keyword::And)
    } else if w == spelling(Keyword::Class) {
        Some(Keyword::Class)
    } else if w == spelling(Keyword::Else) {
        Some(Keyword::Else)
    } else if w == spelling(Keyword::False) {
        Some(Keyword::False)
    } else if w == spelling(Keyword::For) {
        Some(Keyword::For)
    } else if w == spelling(Keyword::Fun) {
        Some(Keyword::Fun)
    } else if w == spelling(Keyword::If) {
        Some(Keyword::If)
    } else if w == spelling(Keyword::Nil) {
        Some(Keyword::Nil)
    } else if w == spelling(Keyword::Or) {
        Some(Keyword::Or)
    } else if w == spelling(Keyword::Print) {
        Some(Keyword::Print)
    } else if w == spelling(Keyword::Return) {
        Some(Keyword::Return)
    } else if w == spelling(Keyword::Super) {
        Some(Keyword::Super)
    } else if w == spelling(Keyword::This) {
        Some(Keyword::This)
    } else if w == spelling(Keyword::True) {
        Some(Keyword::True)
    } else if w == spelling(Keyword::Var) {
        Some(Keyword::Var)
    } else if w == spelling(Keyword::While) {
        Some(Keyword::While)
    } else {
        None
    }
}

/// The first index at or after `i` that holds `c`, or `b.len()` when none does.
pub open spec fn find(b: Seq<u8>, i: int, c: u8) -> int
    decreases b.len() - i,
{
    if i >= b.len() {
        b.len() as int
    } else if b[i] == c {
        i
    } else {
        find(b, i + 1, c)
    }
}

/// The end (exclusive) of the run of ASCII digits that starts at `i`.
pub open spec fn digits_end(b: Seq<u8>, i: int) -> int
    decreases b.len() - i,
{
    if 0 <= i < b.len() && is_digit(b[i]) {
        digits_end(b, i + 1)
    } else {
        i
    }
}

/// The end (exclusive) of the run of ASCII letters that starts at `i`.
pub open spec fn letters_end(b: Seq<u8>, i: int) -> int
    decreases b.len() - i,
{
    if 0 <= i < b.len() && is_alpha(b[i]) {
        letters_end(b, i + 1)
    } else {
        i
    }
}

/// The number that a sequence of decimal digits writes.
pub open spec fn decimal_value(d: Seq<u8>) -> nat
    decreases d.len(),
{
    if d.len() == 0 {
        0
    } else {
        decimal_value(d.drop_last()) * 10 + (d.last() - '0' as u8) as nat
    }
}

/// An operator that takes `second` as an optional second byte.
pub open spec fn compound(
    b: Seq<u8>,
    i: int,
    second: u8,
    single: TypeView,
    double: TypeView,
) -> (TypeView, int) {
    if i + 1 < b.len() && b[i + 1] == second {
        (double, i + 1)
    } else {
        (single, i)
    }
}

/// A string literal runs from its `"` to the next `"`, newlines included;
/// its text is the bytes in between.
pub open spec fn string_lexeme(b: Seq<u8>, i: int) -> (TypeView, int) {
    let close = find(b, i + 1, '"' as u8);
    if close < b.len() {
        (TypeView::StringLiteral(decode_utf8(b.subrange(i + 1, close))), close)
    } else {
        (TypeView::Error(Error::UnterminatedString), b.len() as int)
    }
}

/// A run of digits without a `.` is an integer, or an error when its value
/// does not fit in an `i32`.
pub open spec fn integer_kind(digits: Seq<u8>) -> TypeView {
    if decimal_value(digits) <= i32::MAX {
        TypeView::NumberLiteral(NumberView::Integer(decimal_value(digits) as i32))
    } else {
        TypeView::Error(Error::IntegerOutOfRange)
    }
}

/// A number is a run of digits, and when a `.` follows, the `.` and a second
/// run of digits, which may be empty: then it is a float. A sign is never
/// part of it.
pub open spec fn number_lexeme(b: Seq<u8>, i: int) -> (TypeView, int) {
    let j = digits_end(b, i);
    if j < b.len() && b[j] == '.' as u8 {
        let k = digits_end(b, j + 1);
        (TypeView::NumberLiteral(NumberView::Float(decode_utf8(b.subrange(i, k)))), k - 1)
    } else {
        (integer_kind(b.subrange(i, j)), j - 1)
    }
}

/// A word is its keyword if it spells one, and an identifier otherwise.
pub open spec fn word_kind(w: Seq<u8>) -> TypeView {
    match keyword_of(w) {
        Some(k) => TypeView::Keyword(k),
        None => TypeView::Identifier(decode_utf8(w)),
    }
}

/// A word is a run of ASCII letters: a digit or `_` ends it.
pub open spec fn word_lexeme(b: Seq<u8>, i: int) -> (TypeView, int) {
    let j = letters_end(b, i);
    (word_kind(b.subrange(i, j)), j - 1)
}

/// The kind of the lexeme that starts at `i`, and the index of its last byte
/// (`b.len()` for a string literal that is never closed).
pub open spec fn lexeme(b: Seq<u8>, i: int) -> (TypeView, int) {
    let c = b[i];
    if is_whitespace(c) {
        (TypeView::Whitespace, i)
    } else if c == '"' as u8 {
        string_lexeme(b, i)
    } else if punctuation(c) is Some {
        (punctuation(c)->Some_0, i)
    } else if c == '!' as u8 {
        compound(b, i, '=' as u8, TypeView::Bang, TypeView::BangEqual)
    } else if c == '=' as u8 {
        compound(b, i, '=' as u8, TypeView::Equal, TypeView::EqualEqual)
    } else if c == '>' as u8 {
        compound(b, i, '=' as u8, TypeView::Greater, TypeView::GreaterEqual)
    } else if c == '<' as u8 {
        compound(b, i, '=' as u8, TypeView::Less, TypeView::LessEqual)
    } else if c == '/' as u8 {
        compound(b, i, '/' as u8, TypeView::Slash, TypeView::SlashSlash)
    } else if is_digit(c) {
        number_lexeme(b, i)
    } else if is_alpha(c) {
        word_lexeme(b, i)
    } else {
        (TypeView::Error(Error::UnexpectedByte(c)), i)
    }
}

/// The index after `j`, kept within `b`.
pub open spec fn after(b: Seq<u8>, j: int) -> int {
    if j < b.len() {
        j + 1
    } else {
        b.len() as int
    }
}

/// Where the scan goes on after the lexeme that starts at `i`: past its last
/// byte, and after `//` past the end of the line.
pub open spec fn resume(b: Seq<u8>, i: int) -> int {
    let (kind, last) = lexeme(b, i);
    if kind is SlashSlash {
        after(b, find(b, last, '\n' as u8))
    } else {
        after(b, last)
    }
}

/// Whether the scanner keeps a lexeme of this kind.
pub open spec fn is_emitted(kind: TypeView) -> bool {
    !(kind is Whitespace || kind is SlashSlash)
}

/// The tokens that the scanner emits from index `i` on.
pub open spec fn tokens_from(b: Seq<u8>, i: int) -> Seq<TypeView>
    decreases b.len() - i,
{
    if 0 <= i < b.len() {
        proof {
            lemma_resume_advances(b, i);
        }
        let kind = lexeme(b, i).0;
        let rest = tokens_from(b, resume(b, i));
        if is_emitted(kind) {
            seq![kind] + rest
        } else {
            rest
        }
    } else {
        seq![]
    }
}

/// The tokens that the scanner emits for the whole of `b`.
pub open spec fn scanned(b: Seq<u8>) -> Seq<TypeView> {
    tokens_from(b, 0)
}

pub proof fn lemma_find_bounds(b: Seq<u8>, i: int, c: u8)
    requires
        0 <= i <= b.len(),
    ensures
        i <= find(b, i, c) <= b.len(),
        find(b, i, c) < b.len() ==> b[find(b, i, c)] == c,
        forall|k: int| i <= k < find(b, i, c) ==> b[k] != c,
    decreases b.len() - i,
{
    if i < b.len() && b[i] != c {
        lemma_find_bounds(b, i + 1, c);
    }
}

pub proof fn lemma_digits_end_bounds(b: Seq<u8>, i: int)
    requires
        0 <= i <= b.len(),
    ensures
        i <= digits_end(b, i) <= b.len(),
        i < b.len() && is_digit(b[i]) ==> i < digits_end(b, i),
        digits_end(b, i) < b.len() ==> !is_digit(b[digits_end(b, i)]),
        forall|k: int| i <= k < digits_end(b, i) ==> is_digit(b[k]),
    decreases b.len() - i,
{
    if i < b.len() && is_digit(b[i]) {
        lemma_digits_end_bounds(b, i + 1);
    }
}

pub proof fn lemma_letters_end_bounds(b: Seq<u8>, i: int)
    requires
        0 <= i <= b.len(),
    ensures
        i <= letters_end(b, i) <= b.len(),
        i < b.len() && is_alpha(b[i]) ==> i < letters_end(b, i),
        letters_end(b, i) < b.len() ==> !is_alpha(b[letters_end(b, i)]),
        forall|k: int| i <= k < letters_end(b, i) ==> is_alpha(b[k]),
    decreases b.len() - i,
{
    if i < b.len() && is_alpha(b[i]) {
        lemma_letters_end_bounds(b, i + 1);
    }
}

/// A lexeme ends at or after its first byte, and within `b` but for an
/// unclosed string, which ends at `b.len()`.
pub proof fn lemma_lexeme_bounds(b: Seq<u8>, i: int)
    requires
        0 <= i < b.len(),
    ensures
        i <= lexeme(b, i).1 <= b.len(),
        lexeme(b, i).1 == b.len() ==> lexeme(b, i).0 == TypeView::Error(
            Error::UnterminatedString,
        ),
{
    let c = b[i];
    if c == '"' as u8 {
        lemma_find_bounds(b, i + 1, '"' as u8);
    } else if is_digit(c) {
        lemma_digits_end_bounds(b, i);
        let j = digits_end(b, i);
        if j < b.len() && b[j] == '.' as u8 {
            lemma_digits_end_bounds(b, j + 1);
        }
    } else if is_alpha(c) {
        lemma_letters_end_bounds(b, i);
    }
}

pub proof fn lemma_resume_advances(b: Seq<u8>, i: int)
    requires
        0 <= i < b.len(),
    ensures
        i < resume(b, i) <= b.len(),
{
    lemma_lexeme_bounds(b, i);
    let (kind, last) = lexeme(b, i);
    if kind is SlashSlash {
        lemma_find_bounds(b, last, '\n' as u8);
    }
}

/// A byte below 0x80 stands for one character: there is a character
/// boundary on each side of it.
pub proof fn lemma_ascii_byte_boundaries(b: Seq<u8>, i: int)
    requires
        valid_utf8(b),
        0 <= i < b.len(),
        b[i] <= 0x7f,
    ensures
        is_char_boundary(b, i),
        is_char_boundary(b, i + 1),
{
    is_char_boundary_iff_not_is_continuation_byte(b, i);
    valid_utf8_split(b, i);
    let tail = b.subrange(i, b.len() as int);
    assert(pop_first_scalar(tail) =~= b.subrange(i + 1, b.len() as int));
    if i + 1 < b.len() {
        let rest = pop_first_scalar(tail);
        assert(valid_utf8(rest));
        assert(valid_first_scalar(rest));
        assert(rest[0] == b[i + 1]);
        is_char_boundary_iff_not_is_continuation_byte(b, i + 1);
    } else {
        is_char_boundary_start_end_of_seq(b);
    }
}

} // verus!
