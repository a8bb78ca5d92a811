//! The scanner: one pass over the bytes of a source text.
use vstd::prelude::*;
use vstd::string::StringSliceAdditionalSpecFns;
use vstd::utf8::*;

use crate::lexicon::{
    compound, decimal_value, digits_end, find, is_alpha, is_digit, is_emitted, keyword_of,
    lemma_ascii_byte_boundaries, lemma_digits_end_bounds, lemma_find_bounds,
    lemma_letters_end_bounds, lemma_resume_advances, letters_end, lexeme, number_lexeme, resume,
    string_lexeme, tokens_from,
};
use crate::token::{kinds, Error, Keyword, NumberLiteral, Token, Type};

verus! {

broadcast use encode_utf8_valid_utf8, encode_utf8_decode_utf8;

/// A cursor over the bytes of one source text.
pub struct Scanner<'a> {
    source: &'a str,
    bytes: &'a [u8],
    position: usize,
}

impl<'a> Scanner<'a> {
    /// The bytes being scanned.
    pub closed spec fn text(&self) -> Seq<u8> {
        self.bytes@
    }

    /// The index of the byte under the cursor.
    pub closed spec fn cursor(&self) -> int {
        self.position as int
    }

    /// The bytes are those of the source text, hence valid UTF-8, and the
    /// cursor lies within them or just past the last.
    pub closed spec fn wf(&self) -> bool {
        &&& self.bytes@ == self.source.spec_bytes()
        &&& valid_utf8(self.bytes@)
        &&& self.position <= self.bytes@.len()
    }

    /// A scanner at the start of `source`.
    pub fn new(source: &'a str) -> (s: Scanner<'a>)
        ensures
            s.wf(),
            s.text() == source.spec_bytes(),
            s.cursor() == 0,
    {
        proof {
            encode_utf8_valid_utf8(source@);
        }
        Scanner { source, bytes: source.as_bytes(), position: 0 }
    }

    /// Scans from the cursor to the end of the text.
    pub fn scan_tokens(&mut self) -> (tokens: Vec<Token>)
        requires
            old(self).wf(),
        ensures
            final(self).wf(),
            final(self).text() == old(self).text(),
            final(self).cursor() == old(self).text().len(),
            kinds(tokens@) == tokens_from(old(self).text(), old(self).cursor()),
    {
        let ghost b = self.text();
        let ghost start = self.cursor();
        let mut tokens: Vec<Token> = Vec::new();
        while !self.is_at_end()
            invariant
                self.wf(),
                self.text() == b,
                kinds(tokens@) + tokens_from(b, self.cursor()) == tokens_from(b, start),
            decreases b.len() - self.cursor(),
        {
            let ghost i = self.cursor();
            let ghost before = kinds(tokens@);
            proof {
                lemma_resume_advances(b, i);
            }
            let kind = self.identify_token_type();
            let ghost kv = kind@;
            match kind {
                Type::SlashSlash => self.skip_current_line(),
                Type::Whitespace => {},
                kind => {
                    tokens.push(Token { kind });
                    assert(kinds(tokens@) =~= before.push(kv));
                },
            }
            // A string that is never closed, or a comment on the last line,
            // leaves the cursor at the end already.
            if !self.is_at_end() {
                self.advance();
            }
            proof {
                assert(self.cursor() == resume(b, i));
                if is_emitted(kv) {
                    assert(tokens_from(b, i) == seq![kv] + tokens_from(b, resume(b, i)));
                    assert(before + tokens_from(b, i) =~= kinds(tokens@) + tokens_from(
                        b,
                        self.cursor(),
                    ));
                }
            }
        }
        tokens
    }

    /// Whether the cursor has passed the last byte.
    pub fn is_at_end(&self) -> (r: bool)
        ensures
            r == (self.cursor() >= self.text().len()),
    {
        self.position >= self.bytes.len()
    }

    /// The byte under the cursor.
    pub fn current_byte(&self) -> (r: u8)
        requires
            self.cursor() < self.text().len(),
        ensures
            r == self.text()[self.cursor()],
    {
        self.bytes[self.position]
    }

    /// The byte after the one under the cursor, if there is one.
    pub fn next_byte(&self) -> (r: Option<u8>)
        requires
            self.wf(),
        ensures
            r == (if self.cursor() + 1 < self.text().len() {
                Some(self.text()[self.cursor() + 1])
            } else {
                None
            }),
    {
        if self.position < self.bytes.len() && self.position + 1 < self.bytes.len() {
            Some(self.bytes[self.position + 1])
        } else {
            None
        }
    }

    /// Moves the cursor one byte on.
    pub fn advance(&mut self)
        requires
            old(self).wf(),
            old(self).cursor() < old(self).text().len(),
        ensures
            final(self).wf(),
            final(self).text() == old(self).text(),
            final(self).cursor() == old(self).cursor() + 1,
    {
        proof {
            assert(self.bytes@.len() == self.bytes.len());
        }
        self.position += 1;
    }

    /// Moves the cursor onto the first `byte` at or after it, or to the end.
    pub fn seek(&mut self, byte: u8)
        requires
            old(self).wf(),
        ensures
            final(self).wf(),
            final(self).text() == old(self).text(),
            final(self).cursor() == find(old(self).text(), old(self).cursor(), byte),
    {
        while !self.is_at_end() && byte != self.current_byte()
            invariant
                self.wf(),
                self.text() == old(self).text(),
                old(self).cursor() <= self.cursor(),
                find(self.text(), self.cursor(), byte) == find(
                    self.text(),
                    old(self).cursor(),
                    byte,
                ),
            decreases self.text().len() - self.cursor(),
        {
            self.advance();
        }
    }

    /// Moves the cursor onto the end of the current line.
    pub fn skip_current_line(&mut self)
        requires
            old(self).wf(),
        ensures
            final(self).wf(),
            final(self).text() == old(self).text(),
            final(self).cursor() == find(old(self).text(), old(self).cursor(), '\n' as u8),
    {
        self.seek('\n' as u8);
    }
    /// Classifies the lexeme that starts under the cursor and leaves the
    /// cursor on its last byte.
    pub fn identify_token_type(&mut self) -> (r: Type)
        requires
            old(self).wf(),
            old(self).cursor() < old(self).text().len(),
        ensures
            final(self).wf(),
            final(self).text() == old(self).text(),
            (r@, final(self).cursor()) == lexeme(old(self).text(), old(self).cursor()),
    {
        let c = self.current_byte();
        if c == ' ' as u8 || c == '\t' as u8 || c == '\r' as u8 || c == '\n' as u8 {
            Type::Whitespace
        } else if c == '"' as u8 {
            self.treat_string()
        } else if c == '(' as u8 {
            Type::LeftParen
        } else if c == ')' as u8 {
            Type::RightParen
        } else if c == '{' as u8 {
            Type::LeftBrace
        } else if c == '}' as u8 {
            Type::RightBrace
        } else if c == ',' as u8 {
            Type::Comma
        } else if c == '.' as u8 {
            Type::Dot
        } else if c == '-' as u8 {
            Type::Minus
        } else if c == '+' as u8 {
            Type::Plus
        } else if c == ';' as u8 {
            Type::Semicolon
        } else if c == '*' as u8 {
            Type::Star
        } else if c == '!' as u8 {
            self.decide_token_type(Type::Bang, (Type::BangEqual, '=' as u8))
        } else if c == '=' as u8 {
            self.decide_token_type(Type::Equal, (Type::EqualEqual, '=' as u8))
        } else if c == '>' as u8 {
            self.decide_token_type(Type::Greater, (Type::GreaterEqual, '=' as u8))
        } else if c == '<' as u8 {
            self.decide_token_type(Type::Less, (Type::LessEqual, '=' as u8))
        } else if c == '/' as u8 {
            self.decide_token_type(Type::Slash, (Type::SlashSlash, '/' as u8))
        } else if is_ascii_digit(c) {
            self.treat_number()
        } else if is_ascii_alphabetic(c) {
            let (start, end) = self.measure_word();
            match self.keyword(start, end) {
                Some(k) => Type::Keyword(k),
                None => {
                    proof {
                        lemma_ascii_byte_boundaries(self.text(), start as int);
                        lemma_ascii_byte_boundaries(self.text(), end - 1);
                    }
                    Type::Identifier(self.text_between(start, end))
                },
            }
        } else {
            Type::Error(Error::UnexpectedByte(c))
        }
    }

    /// Classifies a string literal that starts under the cursor.
    pub fn treat_string(&mut self) -> (r: Type)
        requires
            old(self).wf(),
            old(self).cursor() < old(self).text().len(),
            old(self).text()[old(self).cursor()] == '"' as u8,
        ensures
            final(self).wf(),
            final(self).text() == old(self).text(),
            (r@, final(self).cursor()) == string_lexeme(old(self).text(), old(self).cursor()),
    {
        let ghost open = self.cursor();
        let (start, end) = self.measure_string();
        if self.is_at_end() {
            Type::Error(Error::UnterminatedString)
        } else {
            proof {
                lemma_find_bounds(self.text(), open + 1, '"' as u8);
                lemma_ascii_byte_boundaries(self.text(), open);
                lemma_ascii_byte_boundaries(self.text(), end as int);
            }
            Type::StringLiteral(self.text_between(start, end))
        }
    }

    /// Classifies a number literal that starts under the cursor.
    pub fn treat_number(&mut self) -> (r: Type)
        requires
            old(self).wf(),
            old(self).cursor() < old(self).text().len(),
            is_digit(old(self).text()[old(self).cursor()]),
        ensures
            final(self).wf(),
            final(self).text() == old(self).text(),
            (r@, final(self).cursor()) == number_lexeme(old(self).text(), old(self).cursor()),
    {
        let (is_float, start, end) = self.measure_number();
        if is_float {
            proof {
                lemma_ascii_byte_boundaries(self.text(), start as int);
                lemma_ascii_byte_boundaries(self.text(), end - 1);
            }
            Type::NumberLiteral(NumberLiteral::Float(self.text_between(start, end)))
        } else {
            match self.integer_value(start, end) {
                Some(n) => Type::NumberLiteral(NumberLiteral::Integer(n)),
                None => Type::Error(Error::IntegerOutOfRange),
            }
        }
    }

    /// Moves the cursor from an opening `"` onto the closing one, or to the
    /// end of the text, and returns the bounds of what lies between.
    pub fn measure_string(&mut self) -> (r: (usize, usize))
        requires
            old(self).wf(),
            old(self).cursor() < old(self).text().len(),
        ensures
            final(self).wf(),
            final(self).text() == old(self).text(),
            r.0 == old(self).cursor() + 1,
            r.1 == find(old(self).text(), old(self).cursor() + 1, '"' as u8),
            final(self).cursor() == r.1,
    {
        let start = self.position;
        self.advance();
        self.seek('"' as u8);
        let end = self.position;
        (start + 1, end)
    }

    /// Moves the cursor onto the last byte of a number literal, and returns
    /// whether it has a `.` and its bounds.
    pub fn measure_number(&mut self) -> (r: (bool, usize, usize))
        requires
            old(self).wf(),
            old(self).cursor() < old(self).text().len(),
            is_digit(old(self).text()[old(self).cursor()]),
        ensures
            final(self).wf(),
            final(self).text() == old(self).text(),
            ({
                let b = old(self).text();
                let i = old(self).cursor();
                let j = digits_end(b, i);
                let (is_float, start, end) = r;
                &&& start == i
                &&& is_float == (j < b.len() && b[j] == '.' as u8)
                &&& end == (if is_float { digits_end(b, j + 1) } else { j })
                &&& final(self).cursor() == end - 1
                &&& i < end <= b.len()
                &&& forall|k: int| start <= k < end ==> (is_digit(#[trigger] b[k]) || b[k] == '.' as u8)
                &&& !is_float ==> forall|k: int| start <= k < end ==> is_digit(#[trigger] b[k])
            }),
    {
        let ghost b = self.text();
        let mut is_float = false;
        let start = self.position;
        proof {
            lemma_digits_end_bounds(b, start as int);
        }
        self.advance_until_not_ascii_digit();
        if !self.is_at_end() && self.current_byte() == '.' as u8 {
            self.advance();
            proof {
                lemma_digits_end_bounds(b, self.cursor());
            }
            self.advance_until_not_ascii_digit();
            is_float = true;
        }
        let end = self.position;
        self.position = self.position - 1;
        (is_float, start, end)
    }

    /// Moves the cursor onto the last byte of a word, and returns its bounds.
    pub fn measure_word(&mut self) -> (r: (usize, usize))
        requires
            old(self).wf(),
            old(self).cursor() < old(self).text().len(),
            is_alpha(old(self).text()[old(self).cursor()]),
        ensures
            final(self).wf(),
            final(self).text() == old(self).text(),
            r.0 == old(self).cursor(),
            r.1 == letters_end(old(self).text(), old(self).cursor()),
            r.0 < r.1 <= old(self).text().len(),
            final(self).cursor() == r.1 - 1,
            forall|k: int| r.0 <= k < r.1 ==> is_alpha(#[trigger] old(self).text()[k]),
    {
        let ghost b = self.text();
        let start = self.position;
        proof {
            lemma_letters_end_bounds(b, start as int);
        }
        while !self.is_at_end() && is_ascii_alphabetic(self.current_byte())
            invariant
                self.wf(),
                self.text() == b,
                start <= self.cursor(),
                letters_end(b, self.cursor()) == letters_end(b, start as int),
            decreases b.len() - self.cursor(),
        {
            self.advance();
        }
        let end = self.position;
        self.position = self.position - 1;
        (start, end)
    }

    /// Moves the cursor past the run of ASCII digits under it.
    pub fn advance_until_not_ascii_digit(&mut self)
        requires
            old(self).wf(),
        ensures
            final(self).wf(),
            final(self).text() == old(self).text(),
            final(self).cursor() == digits_end(old(self).text(), old(self).cursor()),
    {
        while !self.is_at_end() && is_ascii_digit(self.current_byte())
            invariant
                self.wf(),
                self.text() == old(self).text(),
                digits_end(self.text(), self.cursor()) == digits_end(
                    self.text(),
                    old(self).cursor(),
                ),
            decreases self.text().len() - self.cursor(),
        {
            self.advance();
        }
    }

    /// Returns `compound_type.0`, with the cursor moved onto the next byte,
    /// when that byte is `compound_type.1`, and `simple_type` otherwise.
    pub fn decide_token_type(&mut self, simple_type: Type, compound_type: (Type, u8)) -> (r: Type)
        requires
            old(self).wf(),
            old(self).cursor() < old(self).text().len(),
        ensures
            final(self).wf(),
            final(self).text() == old(self).text(),
            (r@, final(self).cursor()) == compound(
                old(self).text(),
                old(self).cursor(),
                compound_type.1,
                simple_type@,
                compound_type.0@,
            ),
    {
        let (compound_type, expected_byte) = compound_type;
        match self.next_byte() {
            Some(byte) => {
                if byte == expected_byte {
                    self.advance();
                    compound_type
                } else {
                    simple_type
                }
            },
            None => simple_type,
        }
    }

    /// The text of the bytes from `start` to `end`.
    fn text_between(&self, start: usize, end: usize) -> (r: String)
        requires
            self.wf(),
            start <= end <= self.text().len(),
            is_char_boundary(self.text(), start as int),
            is_char_boundary(self.text(), end as int),
        ensures
            r@ == decode_utf8(self.text().subrange(start as int, end as int)),
    {
        let ghost b = self.text();
        let (_, tail) = self.source.split_at(start);
        proof {
            let t = tail.spec_bytes();
            assert(t =~= b.subrange(start as int, b.len() as int));
            if end < b.len() {
                is_char_boundary_iff_not_is_continuation_byte(b, end as int);
                is_char_boundary_iff_not_is_continuation_byte(t, end - start);
            } else {
                is_char_boundary_start_end_of_seq(t);
            }
        }
        let (piece, _) = tail.split_at(end - start);
        assert(piece.spec_bytes() =~= b.subrange(start as int, end as int));
        piece.to_owned()
    }

    /// Whether the bytes from `start` to `end` are those of `word`.
    fn spells(&self, start: usize, end: usize, word: &[u8]) -> (r: bool)
        requires
            start <= end <= self.text().len(),
        ensures
            r == (self.text().subrange(start as int, end as int) == word@),
    {
        if end - start != word.len() {
            return false;
        }
        let mut k: usize = 0;
        while k < word.len()
            invariant
                start <= end <= self.text().len(),
                end - start == word.len(),
                k <= word.len(),
                forall|j: int| 0 <= j < k ==> self.text()[start + j] == word@[j],
            decreases word.len() - k,
        {
            if self.bytes[start + k] != word[k] {
                assert(self.text().subrange(start as int, end as int)[k as int] != word@[k as int]);
                return false;
            }
            k += 1;
        }
        assert(self.text().subrange(start as int, end as int) =~= word@);
        true
    }

    /// The keyword that the bytes from `start` to `end` spell, if any.
    fn keyword(&self, start: usize, end: usize) -> (r: Option<Keyword>)
        requires
            start <= end <= self.text().len(),
        ensures
            r == keyword_of(self.text().subrange(start as int, end as int)),
    {
        if self.spells(start, end, &['a' as u8, 'n' as u8, 'd' as u8]) {
            Some(Keyword::And)
        } else if self.spells(start, end, &['c' as u8, 'l' as u8, 'a' as u8, 's' as u8, 's' as u8]) {
            Some(Keyword::Class)
        } else if self.spells(start, end, &['e' as u8, 'l' as u8, 's' as u8, 'e' as u8]) {
            Some(Keyword::Else)
        } else if self.spells(start, end, &['f' as u8, 'a' as u8, 'l' as u8, 's' as u8, 'e' as u8]) {
            Some(Keyword::False)
        } else if self.spells(start, end, &['f' as u8, 'o' as u8, 'r' as u8]) {
            Some(Keyword::For)
        } else if self.spells(start, end, &['f' as u8, 'u' as u8, 'n' as u8]) {
            Some(Keyword::Fun)
        } else if self.spells(start, end, &['i' as u8, 'f' as u8]) {
            Some(Keyword::If)
        } else if self.spells(start, end, &['n' as u8, 'i' as u8, 'l' as u8]) {
            Some(Keyword::Nil)
        } else if self.spells(start, end, &['o' as u8, 'r' as u8]) {
            Some(Keyword::Or)
        } else if self.spells(start, end, &['p' as u8, 'r' as u8, 'i' as u8, 'n' as u8, 't' as u8]) {
            Some(Keyword::Print)
        } else if self.spells(
            start,
            end,
            &['r' as u8, 'e' as u8, 't' as u8, 'u' as u8, 'r' as u8, 'n' as u8],
        ) {
            Some(Keyword::Return)
        } else if self.spells(start, end, &['s' as u8, 'u' as u8, 'p' as u8, 'e' as u8, 'r' as u8]) {
            Some(Keyword::Super)
        } else if self.spells(start, end, &['t' as u8, 'h' as u8, 'i' as u8, 's' as u8]) {
            Some(Keyword::This)
        } else if self.spells(start, end, &['t' as u8, 'r' as u8, 'u' as u8, 'e' as u8]) {
            Some(Keyword::True)
        } else if self.spells(start, end, &['v' as u8, 'a' as u8, 'r' as u8]) {
            Some(Keyword::Var)
        } else if self.spells(start, end, &['w' as u8, 'h' as u8, 'i' as u8, 'l' as u8, 'e' as u8]) {
            Some(Keyword::While)
        } else {
            None
        }
    }

    /// The value of the digits from `start` to `end`, if it fits in an `i32`.
    fn integer_value(&self, start: usize, end: usize) -> (r: Option<i32>)
        requires
            start <= end <= self.text().len(),
            forall|k: int| start <= k < end ==> is_digit(#[trigger] self.text()[k]),
        ensures
            r == (if decimal_value(self.text().subrange(start as int, end as int)) <= i32::MAX {
                Some(decimal_value(self.text().subrange(start as int, end as int)) as i32)
            } else {
                None
            }),
    {
        let ghost b = self.text();
        let mut value: i32 = 0;
        let mut k = start;
        assert(b.subrange(start as int, start as int) =~= Seq::<u8>::empty());
        while k < end
            invariant
                start <= k <= end <= b.len(),
                b == self.text(),
                forall|j: int| start <= j < end ==> is_digit(#[trigger] b[j]),
                value >= 0,
                value as nat == decimal_value(b.subrange(start as int, k as int)),
            decreases end - k,
        {
            let digit = (self.bytes[k] - '0' as u8) as i32;
            proof {
                assert(b.subrange(start as int, k + 1).drop_last() =~= b.subrange(
                    start as int,
                    k as int,
                ));
            }
            match value.checked_mul(10) {
                Some(tens) => match tens.checked_add(digit) {
                    Some(next) => {
                        value = next;
                    },
                    None => {
                        proof {
                            lemma_decimal_value_grows(b.subrange(start as int, end as int), k + 1 - start);
                            assert(b.subrange(start as int, end as int).subrange(0, k + 1 - start) =~= b.subrange(start as int, k + 1));
                        }
                        return None;
                    },
                },
                None => {
                    proof {
                        lemma_decimal_value_grows(b.subrange(start as int, end as int), k + 1 - start);
                        assert(b.subrange(start as int, end as int).subrange(0, k + 1 - start) =~= b.subrange(start as int, k + 1));
                    }
                    return None;
                },
            }
            k += 1;
        }
        Some(value)
    }
}

/// A number that a prefix of `d` writes is at most the one `d` writes.
proof fn lemma_decimal_value_grows(d: Seq<u8>, n: int)
    requires
        0 <= n <= d.len(),
        forall|j: int| 0 <= j < d.len() ==> is_digit(#[trigger] d[j]),
    ensures
        decimal_value(d.subrange(0, n)) <= decimal_value(d),
    decreases d.len() - n,
{
    if n < d.len() {
        lemma_decimal_value_grows(d, n + 1);
        assert(d.subrange(0, n + 1).drop_last() =~= d.subrange(0, n));
    } else {
        assert(d.subrange(0, n) =~= d);
    }
}

fn is_ascii_digit(c: u8) -> (r: bool)
    ensures
        r == is_digit(c),
{
    '0' as u8 <= c && c <= '9' as u8
}

fn is_ascii_alphabetic(c: u8) -> (r: bool)
    ensures
        r == is_alpha(c),
{
    ('a' as u8 <= c && c <= 'z' as u8) || ('A' as u8 <= c && c <= 'Z' as u8)
}

} // verus!
