use vstd::prelude::*;

verus! {

/// Reserved words of the language.
#[derive(Debug, Clone, Copy, PartialEq, Eq, Structural)]
pub enum Keyword {
    And,
    Class,
    Else,
    False,
    For,
    Fun,
    If,
    Nil,
    Or,
    Print,
    Return,
    Super,
    This,
    True,
    Var,
    While,
}

/// A malformed lexeme, reported in place of a token.
#[derive(Debug, Clone, Copy, PartialEq, Eq, Structural)]
pub enum Error {
    /// A string literal whose closing `"` never comes.
    UnterminatedString,
    /// A byte that starts no lexeme of the language.
    UnexpectedByte(u8),
    /// A run of digits whose value does not fit in an `i32`.
    IntegerOutOfRange,
}

/// The value of a number literal.
///
/// A float keeps its decimal text (`"12.3"`, or `"12."` for a trailing dot):
/// turning it into a binary floating-point value is left to the consumer.
#[derive(Debug, PartialEq)]
pub enum NumberLiteral {
    Integer(i32),
    Float(String),
}

/// The mathematical value of a [`NumberLiteral`].
pub enum NumberView {
    Integer(i32),
    Float(Seq<char>),
}

impl View for NumberLiteral {
    type V = NumberView;

    open spec fn view(&self) -> NumberView {
        match self {
            NumberLiteral::Integer(n) => NumberView::Integer(*n),
            NumberLiteral::Float(text) => NumberView::Float(text@),
        }
    }
}

/// The kind of a lexeme.
///
/// `SlashSlash` and `Whitespace` are produced by the classifier only: the
/// scanner never emits them.
#[derive(Debug, PartialEq)]
pub enum Type {
    LeftParen,
    RightParen,
    LeftBrace,
    RightBrace,
    Comma,
    Dot,
    Minus,
    Plus,
    Semicolon,
    Star,
    Bang,
    BangEqual,
    Equal,
    EqualEqual,
    Greater,
    GreaterEqual,
    Less,
    LessEqual,
    Slash,
    SlashSlash,
    Whitespace,
    StringLiteral(String),
    NumberLiteral(NumberLiteral),
    Keyword(Keyword),
    Identifier(String),
    Error(Error),
}

/// The mathematical value of a [`Type`]: the same variants, with text as `Seq<char>`.
pub enum TypeView {
    LeftParen,
    RightParen,
    LeftBrace,
    RightBrace,
    Comma,
    Dot,
    Minus,
    Plus,
    Semicolon,
    Star,
    Bang,
    BangEqual,
    Equal,
    EqualEqual,
    Greater,
    GreaterEqual,
    Less,
    LessEqual,
    Slash,
    SlashSlash,
    Whitespace,
    StringLiteral(Seq<char>),
    NumberLiteral(NumberView),
    Keyword(Keyword),
    Identifier(Seq<char>),
    Error(Error),
}

impl View for Type {
    type V = TypeView;

    open spec fn view(&self) -> TypeView {
        match self {
            Type::LeftParen => TypeView::LeftParen,
            Type::RightParen => TypeView::RightParen,
            Type::LeftBrace => TypeView::LeftBrace,
            Type::RightBrace => TypeView::RightBrace,
            Type::Comma => TypeView::Comma,
            Type::Dot => TypeView::Dot,
            Type::Minus => TypeView::Minus,
            Type::Plus => TypeView::Plus,
            Type::Semicolon => TypeView::Semicolon,
            Type::Star => TypeView::Star,
            Type::Bang => TypeView::Bang,
            Type::BangEqual => TypeView::BangEqual,
            Type::Equal => TypeView::Equal,
            Type::EqualEqual => TypeView::EqualEqual,
            Type::Greater => TypeView::Greater,
            Type::GreaterEqual => TypeView::GreaterEqual,
            Type::Less => TypeView::Less,
            Type::LessEqual => TypeView::LessEqual,
            Type::Slash => TypeView::Slash,
            Type::SlashSlash => TypeView::SlashSlash,
            Type::Whitespace => TypeView::Whitespace,
            Type::StringLiteral(s) => TypeView::StringLiteral(s@),
            Type::NumberLiteral(n) => TypeView::NumberLiteral(n@),
            Type::Keyword(k) => TypeView::Keyword(*k),
            Type::Identifier(s) => TypeView::Identifier(s@),
            Type::Error(e) => TypeView::Error(*e),
        }
    }
}

/// One classified lexeme. Two tokens are equal when their kinds are.
#[derive(Debug, PartialEq)]
pub struct Token {
    pub kind: Type,
}

impl View for Token {
    type V = TypeView;

    open spec fn view(&self) -> TypeView {
        self.kind@
    }
}

/// Whether a token of kind `t` is anything but a single punctuation or
/// operator byte or a string literal.
pub open spec fn is_compound_kind(t: TypeView) -> bool {
    !(t is LeftParen || t is RightParen || t is LeftBrace || t is RightBrace || t is Comma
        || t is Dot || t is Minus || t is Plus || t is Semicolon || t is Star || t is Equal
        || t is Bang || t is Greater || t is Less || t is StringLiteral)
}

impl Token {
    /// Whether the token is something other than one punctuation or operator
    /// byte or a string literal.
    pub fn is_compound(&self) -> (r: bool)
        ensures
            r == is_compound_kind(self@),
    {
        match self.kind {
            Type::LeftParen
            | Type::RightParen
            | Type::LeftBrace
            | Type::RightBrace
            | Type::Comma
            | Type::Dot
            | Type::Minus
            | Type::Plus
            | Type::Semicolon
            | Type::Star
            | Type::Equal
            | Type::Bang
            | Type::Greater
            | Type::Less
            | Type::StringLiteral(_) => false,
            _ => true,
        }
    }
}

/// The bytes that spell keyword `k`.
pub open spec fn spelling(k: Keyword) -> Seq<u8> {
    match k {
        Keyword::And => seq!['a' as u8, 'n' as u8, 'd' as u8],
        Keyword::Class => seq!['c' as u8, 'l' as u8, 'a' as u8, 's' as u8, 's' as u8],
        Keyword::Else => seq!['e' as u8, 'l' as u8, 's' as u8, 'e' as u8],
        Keyword::False => seq!['f' as u8, 'a' as u8, 'l' as u8, 's' as u8, 'e' as u8],
        Keyword::For => seq!['f' as u8, 'o' as u8, 'r' as u8],
        Keyword::Fun => seq!['f' as u8, 'u' as u8, 'n' as u8],
        Keyword::If => seq!['i' as u8, 'f' as u8],
        Keyword::Nil => seq!['n' as u8, 'i' as u8, 'l' as u8],
        Keyword::Or => seq!['o' as u8, 'r' as u8],
        Keyword::Print => seq!['p' as u8, 'r' as u8, 'i' as u8, 'n' as u8, 't' as u8],
        Keyword::Return => seq!['r' as u8, 'e' as u8, 't' as u8, 'u' as u8, 'r' as u8, 'n' as u8],
        Keyword::Super => seq!['s' as u8, 'u' as u8, 'p' as u8, 'e' as u8, 'r' as u8],
        Keyword::This => seq!['t' as u8, 'h' as u8, 'i' as u8, 's' as u8],
        Keyword::True => seq!['t' as u8, 'r' as u8, 'u' as u8, 'e' as u8],
        Keyword::Var => seq!['v' as u8, 'a' as u8, 'r' as u8],
        Keyword::While => seq!['w' as u8, 'h' as u8, 'i' as u8, 'l' as u8, 'e' as u8],
    }
}

/// The kinds of a sequence of tokens.
pub open spec fn kinds(tokens: Seq<Token>) -> Seq<TypeView> {
    tokens.map_values(|t: Token| t@)
}

} // verus!
