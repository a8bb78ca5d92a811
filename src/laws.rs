//! Properties of the scan as a whole, proved over the model in `lexicon`.
use vstd::prelude::*;
use vstd::utf8::{
    decode_utf8_encode_utf8, encode_utf8, is_char_boundary_iff_not_is_continuation_byte,
    valid_utf8, valid_utf8_split,
};

use crate::lexicon::{
    after, digits_end, find, is_alpha, is_digit, is_emitted, keyword_of,
    lemma_ascii_byte_boundaries, lemma_digits_end_bounds, lemma_find_bounds,
    lemma_letters_end_bounds, lemma_lexeme_bounds, lemma_resume_advances, letters_end, lexeme,
    number_lexeme, punctuation, resume, scanned, tokens_from, word_kind,
};
use crate::token::{spelling, Error, Keyword, TypeView};

verus! {

/// The kind of a punctuation byte.
pub open spec fn punctuation_kind(c: u8) -> TypeView {
    punctuation(c)->Some_0
}

proof fn lemma_punctuation_from(b: Seq<u8>, i: int)
    requires
        0 <= i <= b.len(),
        forall|k: int| 0 <= k < b.len() ==> (#[trigger] punctuation(b[k])) is Some,
    ensures
        tokens_from(b, i) == b.subrange(i, b.len() as int).map_values(
            |c: u8| punctuation_kind(c),
        ),
    decreases b.len() - i,
{
    let rest = b.subrange(i, b.len() as int).map_values(|c: u8| punctuation_kind(c));
    if i < b.len() {
        lemma_punctuation_from(b, i + 1);
        assert(punctuation(b[i]) is Some);
        assert(lexeme(b, i) == (punctuation_kind(b[i]), i));
        assert(rest =~= seq![punctuation_kind(b[i])] + b.subrange(i + 1, b.len() as int).map_values(
            |c: u8| punctuation_kind(c),
        ));
    } else {
        assert(rest =~= Seq::<TypeView>::empty());
    }
}

/// Text made only of single-byte punctuation gives one token per byte, in
/// the order of the bytes, each of its byte's kind.
pub proof fn lemma_punctuation_only(b: Seq<u8>)
    requires
        forall|k: int| 0 <= k < b.len() ==> (#[trigger] punctuation(b[k])) is Some,
    ensures
        scanned(b) == b.map_values(|c: u8| punctuation_kind(c)),
{
    lemma_punctuation_from(b, 0);
    assert(b.subrange(0, b.len() as int) =~= b);
}

proof fn lemma_no_markers_from(b: Seq<u8>, i: int)
    ensures
        forall|k: int|
            0 <= k < tokens_from(b, i).len() ==> is_emitted(#[trigger] tokens_from(b, i)[k]),
    decreases b.len() - i,
{
    if 0 <= i < b.len() {
        lemma_resume_advances(b, i);
        lemma_no_markers_from(b, resume(b, i));
        let kind = lexeme(b, i).0;
        let rest = tokens_from(b, resume(b, i));
        if is_emitted(kind) {
            assert(tokens_from(b, i) == seq![kind] + rest);
            assert forall|k: int|
                0 <= k < tokens_from(b, i).len() implies is_emitted(
                #[trigger] tokens_from(b, i)[k],
            ) by {
                if k > 0 {
                    assert(tokens_from(b, i)[k] == rest[k - 1]);
                }
            }
        }
    }
}

/// The scanner never emits the markers that whitespace and `//` classify as.
pub proof fn lemma_no_markers_emitted(b: Seq<u8>)
    ensures
        forall|k: int| 0 <= k < scanned(b).len() ==> is_emitted(#[trigger] scanned(b)[k]),
{
    lemma_no_markers_from(b, 0);
}

/// A `"` with no `"` after it gives one error token, and the scan ends there.
pub proof fn lemma_unterminated_string(b: Seq<u8>, i: int)
    requires
        0 <= i < b.len(),
        b[i] == '"' as u8,
        forall|k: int| i < k < b.len() ==> b[k] != '"' as u8,
    ensures
        tokens_from(b, i) == seq![TypeView::Error(Error::UnterminatedString)],
{
    lemma_find_bounds(b, i + 1, '"' as u8);
    assert(lexeme(b, i) == (TypeView::Error(Error::UnterminatedString), b.len() as int));
    assert(resume(b, i) == b.len());
    assert(tokens_from(b, b.len() as int) == Seq::<TypeView>::empty());
}

/// The text of a string literal, put back between quotes, is the lexeme it
/// was read from, newlines and all.
pub proof fn lemma_string_round_trip(b: Seq<u8>, i: int)
    requires
        valid_utf8(b),
        0 <= i < b.len(),
        b[i] == '"' as u8,
        lexeme(b, i).0 is StringLiteral,
    ensures
        seq!['"' as u8] + encode_utf8(lexeme(b, i).0->StringLiteral_0) + seq!['"' as u8]
            == b.subrange(i, lexeme(b, i).1 + 1),
{
    let close = find(b, i + 1, '"' as u8);
    lemma_find_bounds(b, i + 1, '"' as u8);
    let inner = b.subrange(i + 1, close);
    lemma_ascii_byte_boundaries(b, i);
    valid_utf8_split(b, i + 1);
    let tail = b.subrange(i + 1, b.len() as int);
    is_char_boundary_iff_not_is_continuation_byte(tail, close - (i + 1));
    valid_utf8_split(tail, close - (i + 1));
    assert(tail.subrange(0, close - (i + 1)) =~= inner);
    decode_utf8_encode_utf8(inner);
    assert(seq!['"' as u8] + inner + seq!['"' as u8] =~= b.subrange(i, close + 1));
}

/// A run of letters scanned alone gives one token: the keyword it spells, or
/// else an identifier with its text.
pub proof fn lemma_word_alone(w: Seq<u8>)
    requires
        w.len() > 0,
        forall|k: int| 0 <= k < w.len() ==> is_alpha(#[trigger] w[k]),
    ensures
        scanned(w) == seq![word_kind(w)],
{
    lemma_letters_end_bounds(w, 0);
    assert(letters_end(w, 0) == w.len());
    assert(w.subrange(0, w.len() as int) =~= w);
    assert(lexeme(w, 0) == (word_kind(w), w.len() - 1));
    assert(resume(w, 0) == w.len());
    assert(tokens_from(w, w.len() as int) == Seq::<TypeView>::empty());
}

/// Each reserved word, scanned alone, gives its keyword.
pub proof fn lemma_keyword_alone(k: Keyword)
    ensures
        scanned(spelling(k)) == seq![TypeView::Keyword(k)],
{
    let w = spelling(k);
    assert(keyword_of(w) == Some(k));
    assert forall|j: int| 0 <= j < w.len() implies is_alpha(#[trigger] w[j]) by {}
    lemma_word_alone(w);
}

/// Scanning depends on the text alone: two scans of one text give the same
/// tokens.
pub proof fn lemma_scan_is_deterministic(
    b: Seq<u8>,
    first: Seq<TypeView>,
    second: Seq<TypeView>,
)
    requires
        first == scanned(b),
        second == scanned(b),
    ensures
        first == second,
{
}

/// Whether the scan that starts at index `i` starts a lexeme at index `p`.
pub open spec fn reaches(b: Seq<u8>, i: int, p: int) -> bool
    decreases b.len() - i,
{
    if i == p {
        true
    } else if 0 <= i < b.len() && i < p {
        proof {
            lemma_resume_advances(b, i);
        }
        reaches(b, resume(b, i), p)
    } else {
        false
    }
}

/// The tokens that the scan starting at index `i` emits for the lexemes
/// that start before index `p`.
pub open spec fn tokens_between(b: Seq<u8>, i: int, p: int) -> Seq<TypeView>
    decreases b.len() - i,
{
    if 0 <= i < b.len() && i < p {
        proof {
            lemma_resume_advances(b, i);
        }
        let kind = lexeme(b, i).0;
        let rest = tokens_between(b, resume(b, i), p);
        if is_emitted(kind) {
            seq![kind] + rest
        } else {
            rest
        }
    } else {
        seq![]
    }
}

proof fn lemma_split_where_reached(b: Seq<u8>, i: int, p: int)
    requires
        reaches(b, i, p),
    ensures
        tokens_from(b, i) == tokens_between(b, i, p) + tokens_from(b, p),
    decreases b.len() - i,
{
    if i != p {
        lemma_resume_advances(b, i);
        lemma_split_where_reached(b, resume(b, i), p);
        let kind = lexeme(b, i).0;
        if is_emitted(kind) {
            assert(seq![kind] + (tokens_between(b, resume(b, i), p) + tokens_from(b, p))
                =~= (seq![kind] + tokens_between(b, resume(b, i), p)) + tokens_from(b, p));
        }
    } else {
        assert(tokens_between(b, i, p) + tokens_from(b, p) =~= tokens_from(b, p));
    }
}

proof fn lemma_find_in_prefix(b: Seq<u8>, j: int, c: u8, p: int)
    requires
        0 <= j <= p <= b.len(),
        find(b, j, c) < p,
    ensures
        find(b.subrange(0, p), j, c) == find(b, j, c),
    decreases b.len() - j,
{
    if j < b.len() && b[j] != c {
        lemma_find_bounds(b, j + 1, c);
        lemma_find_in_prefix(b, j + 1, c, p);
    }
}

proof fn lemma_digits_end_in_prefix(b: Seq<u8>, j: int, p: int)
    requires
        0 <= j <= p <= b.len(),
        digits_end(b, j) <= p,
    ensures
        digits_end(b.subrange(0, p), j) == digits_end(b, j),
    decreases b.len() - j,
{
    lemma_digits_end_bounds(b, j);
    if j < p && is_digit(b[j]) {
        lemma_digits_end_in_prefix(b, j + 1, p);
    }
}

proof fn lemma_letters_end_in_prefix(b: Seq<u8>, j: int, p: int)
    requires
        0 <= j <= p <= b.len(),
        letters_end(b, j) <= p,
    ensures
        letters_end(b.subrange(0, p), j) == letters_end(b, j),
    decreases b.len() - j,
{
    lemma_letters_end_bounds(b, j);
    if j < p && is_alpha(b[j]) {
        lemma_letters_end_in_prefix(b, j + 1, p);
    }
}

/// A lexeme that ends before `p` reads the same in the text cut at `p`.
proof fn lemma_lexeme_in_prefix(b: Seq<u8>, i: int, p: int)
    requires
        0 <= i < p <= b.len(),
        resume(b, i) <= p,
    ensures
        lexeme(b.subrange(0, p), i) == lexeme(b, i),
        resume(b.subrange(0, p), i) == resume(b, i),
{
    let pre = b.subrange(0, p);
    lemma_lexeme_bounds(b, i);
    let c = b[i];
    assert(pre[i] == c);
    if p == b.len() {
        assert(pre =~= b);
    } else if c == '"' as u8 {
        lemma_find_bounds(b, i + 1, '"' as u8);
        let close = find(b, i + 1, '"' as u8);
        if close < b.len() {
            lemma_find_in_prefix(b, i + 1, '"' as u8, p);
            assert(pre.subrange(i + 1, close) =~= b.subrange(i + 1, close));
        }
    } else if is_digit(c) {
        assert(lexeme(b, i) == number_lexeme(b, i));
        lemma_digits_end_bounds(b, i);
        let j = digits_end(b, i);
        if j < b.len() && b[j] == '.' as u8 {
            lemma_digits_end_bounds(b, j + 1);
            lemma_digits_end_in_prefix(b, i, p);
            lemma_digits_end_in_prefix(b, j + 1, p);
            assert(pre.subrange(i, digits_end(b, j + 1)) =~= b.subrange(i, digits_end(b, j + 1)));
        } else {
            lemma_digits_end_in_prefix(b, i, p);
            assert(pre.subrange(i, j) =~= b.subrange(i, j));
        }
    } else if is_alpha(c) {
        lemma_letters_end_bounds(b, i);
        lemma_letters_end_in_prefix(b, i, p);
        let j = letters_end(b, i);
        assert(pre.subrange(i, j) =~= b.subrange(i, j));
    } else if c == '/' as u8 && i + 1 < b.len() && b[i + 1] == '/' as u8 {
        lemma_find_bounds(b, i + 1, '\n' as u8);
        lemma_find_in_prefix(b, i + 1, '\n' as u8, p);
    }
}

proof fn lemma_prefix_scan(b: Seq<u8>, i: int, p: int)
    requires
        0 <= i,
        p <= b.len(),
        reaches(b, i, p),
    ensures
        tokens_between(b, i, p) == tokens_from(b.subrange(0, p), i),
    decreases b.len() - i,
{
    if i != p {
        lemma_resume_advances(b, i);
        assert(reaches(b, resume(b, i), p));
        lemma_reaches_bounds(b, resume(b, i), p);
        lemma_lexeme_in_prefix(b, i, p);
        lemma_prefix_scan(b, resume(b, i), p);
    }
}

proof fn lemma_reaches_bounds(b: Seq<u8>, i: int, p: int)
    requires
        reaches(b, i, p),
    ensures
        i <= p,
    decreases b.len() - i,
{
    if i != p {
        lemma_resume_advances(b, i);
        lemma_reaches_bounds(b, resume(b, i), p);
    }
}

proof fn lemma_find_in_suffix(b: Seq<u8>, q: int, i: int, c: u8)
    requires
        0 <= q <= b.len(),
        0 <= i <= b.len() - q,
    ensures
        find(b, q + i, c) == q + find(b.subrange(q, b.len() as int), i, c),
    decreases b.len() - q - i,
{
    if q + i < b.len() && b[q + i] != c {
        lemma_find_in_suffix(b, q, i + 1, c);
    }
}

proof fn lemma_digits_end_in_suffix(b: Seq<u8>, q: int, i: int)
    requires
        0 <= q <= b.len(),
        0 <= i <= b.len() - q,
    ensures
        digits_end(b, q + i) == q + digits_end(b.subrange(q, b.len() as int), i),
    decreases b.len() - q - i,
{
    if q + i < b.len() && is_digit(b[q + i]) {
        lemma_digits_end_in_suffix(b, q, i + 1);
    }
}

proof fn lemma_letters_end_in_suffix(b: Seq<u8>, q: int, i: int)
    requires
        0 <= q <= b.len(),
        0 <= i <= b.len() - q,
    ensures
        letters_end(b, q + i) == q + letters_end(b.subrange(q, b.len() as int), i),
    decreases b.len() - q - i,
{
    if q + i < b.len() && is_alpha(b[q + i]) {
        lemma_letters_end_in_suffix(b, q, i + 1);
    }
}

/// A lexeme reads the same in the text cut before index `q`, shifted by `q`.
proof fn lemma_lexeme_in_suffix(b: Seq<u8>, q: int, i: int)
    requires
        0 <= q <= b.len(),
        0 <= i < b.len() - q,
    ensures
        lexeme(b, q + i).0 == lexeme(b.subrange(q, b.len() as int), i).0,
        lexeme(b, q + i).1 == q + lexeme(b.subrange(q, b.len() as int), i).1,
        resume(b, q + i) == q + resume(b.subrange(q, b.len() as int), i),
{
    let s = b.subrange(q, b.len() as int);
    let c = b[q + i];
    assert(s[i] == c);
    if c == '"' as u8 {
        lemma_find_in_suffix(b, q, i + 1, '"' as u8);
        lemma_find_bounds(s, i + 1, '"' as u8);
        let close = find(s, i + 1, '"' as u8);
        assert(s.subrange(i + 1, close) =~= b.subrange(q + i + 1, q + close));
    } else if is_digit(c) {
        lemma_digits_end_in_suffix(b, q, i);
        lemma_digits_end_bounds(s, i);
        let j = digits_end(s, i);
        if j < s.len() && s[j] == '.' as u8 {
            lemma_digits_end_in_suffix(b, q, j + 1);
            lemma_digits_end_bounds(s, j + 1);
            let k = digits_end(s, j + 1);
            assert(s.subrange(i, k) =~= b.subrange(q + i, q + k));
        } else {
            assert(s.subrange(i, j) =~= b.subrange(q + i, q + j));
        }
    } else if is_alpha(c) {
        lemma_letters_end_in_suffix(b, q, i);
        lemma_letters_end_bounds(s, i);
        let j = letters_end(s, i);
        assert(s.subrange(i, j) =~= b.subrange(q + i, q + j));
    } else if c == '/' as u8 && q + i + 1 < b.len() && b[q + i + 1] == '/' as u8 {
        lemma_find_in_suffix(b, q, i + 1, '\n' as u8);
        lemma_find_bounds(s, i + 1, '\n' as u8);
    }
}

proof fn lemma_suffix_scan(b: Seq<u8>, q: int, i: int)
    requires
        0 <= q <= b.len(),
        0 <= i <= b.len() - q,
    ensures
        tokens_from(b, q + i) == tokens_from(b.subrange(q, b.len() as int), i),
    decreases b.len() - q - i,
{
    let s = b.subrange(q, b.len() as int);
    if i < s.len() {
        lemma_lexeme_in_suffix(b, q, i);
        lemma_resume_advances(s, i);
        lemma_suffix_scan(b, q, resume(s, i));
    }
}

/// A `//` comment gives no token: where the scan reaches a `//`, it emits
/// what the text before it gives, then what the text after the end of that
/// line gives, and nothing for the bytes from `//` to the end of the line.
pub proof fn lemma_line_comment(b: Seq<u8>, p: int)
    requires
        reaches(b, 0, p),
        p + 1 < b.len(),
        b[p] == '/' as u8,
        b[p + 1] == '/' as u8,
    ensures
        scanned(b) == scanned(b.subrange(0, p)) + scanned(
            b.subrange(after(b, find(b, p + 2, '\n' as u8)), b.len() as int),
        ),
{
    lemma_find_bounds(b, p + 2, '\n' as u8);
    lemma_suffix_scan(b, after(b, find(b, p + 2, '\n' as u8)), 0);
    lemma_split_where_reached(b, 0, p);
    lemma_prefix_scan(b, 0, p);
    assert(lexeme(b, p) == (TypeView::SlashSlash, p + 1));
    assert(find(b, p + 1, '\n' as u8) == find(b, p + 2, '\n' as u8));
}

} // verus!
