//! Tokens, errors and the collector that errors are recorded in.
use std::ops::Range;
use vstd::prelude::*;
use crate::lexical::{ErrorKind, Outcome, Piece, Shape};

verus! {

/// A token with its span in the source, measured in characters.
#[derive(Debug)]
pub enum Token {
    // Single characters.
    OpeningParen(Range<usize>),
    ClosingParen(Range<usize>),
    Comma(Range<usize>),
    Dot(Range<usize>),
    Minus(Range<usize>),
    Plus(Range<usize>),
    NumberSign(Range<usize>),
    Colon(Range<usize>),
    // Literals.
    Comment(Range<usize>, String),
    Identifier(Range<usize>, String),
    Number(Range<usize>, u32),
    // Layout.
    Whitespace(Range<usize>),
    Newline(Range<usize>),
}

pub open spec fn emit_piece(r: Range<usize>, shape: Shape) -> Piece {
    Piece { start: r.start as int, end: r.end as int, outcome: Outcome::Emit(shape) }
}

impl View for Token {
    type V = Piece;

    open spec fn view(&self) -> Piece {
        match self {
            Token::OpeningParen(r) => emit_piece(*r, Shape::OpeningParen),
            Token::ClosingParen(r) => emit_piece(*r, Shape::ClosingParen),
            Token::Comma(r) => emit_piece(*r, Shape::Comma),
            Token::Dot(r) => emit_piece(*r, Shape::Dot),
            Token::Minus(r) => emit_piece(*r, Shape::Minus),
            Token::Plus(r) => emit_piece(*r, Shape::Plus),
            Token::NumberSign(r) => emit_piece(*r, Shape::NumberSign),
            Token::Colon(r) => emit_piece(*r, Shape::Colon),
            Token::Comment(r, t) => emit_piece(*r, Shape::Comment(t@)),
            Token::Identifier(r, t) => emit_piece(*r, Shape::Identifier(t@)),
            Token::Number(r, n) => emit_piece(*r, Shape::Number(*n)),
            Token::Whitespace(r) => emit_piece(*r, Shape::Whitespace),
            Token::Newline(r) => emit_piece(*r, Shape::Newline),
        }
    }
}

fn same_range(a: &Range<usize>, b: &Range<usize>) -> (r: bool)
    ensures
        r == (a.start == b.start && a.end == b.end),
{
    a.start == b.start && a.end == b.end
}

fn same_text(x: &String, y: &String) -> (r: bool)
    ensures
        r == (x@ == y@),
{
    x.eq(y)
}

impl Token {
    /// The span of the token.
    pub fn range(&self) -> (r: Range<usize>)
        ensures
            r.start == self@.start,
            r.end == self@.end,
    {
        match self {
            Token::OpeningParen(r) | Token::ClosingParen(r) | Token::Comma(r) | Token::Dot(r)
            | Token::Minus(r) | Token::Plus(r) | Token::NumberSign(r) | Token::Colon(r)
            | Token::Whitespace(r) | Token::Newline(r) => Range { start: r.start, end: r.end },
            Token::Comment(r, _) | Token::Identifier(r, _) | Token::Number(r, _) => Range {
                start: r.start,
                end: r.end,
            },
        }
    }
}

impl PartialEq for Token {
    fn eq(&self, o: &Token) -> (r: bool)
        ensures
            r == (self@ == o@),
    {
        match (self, o) {
            (Token::OpeningParen(a), Token::OpeningParen(b)) => same_range(a, b),
            (Token::ClosingParen(a), Token::ClosingParen(b)) => same_range(a, b),
            (Token::Comma(a), Token::Comma(b)) => same_range(a, b),
            (Token::Dot(a), Token::Dot(b)) => same_range(a, b),
            (Token::Minus(a), Token::Minus(b)) => same_range(a, b),
            (Token::Plus(a), Token::Plus(b)) => same_range(a, b),
            (Token::NumberSign(a), Token::NumberSign(b)) => same_range(a, b),
            (Token::Colon(a), Token::Colon(b)) => same_range(a, b),
            (Token::Comment(a, x), Token::Comment(b, y)) => same_range(a, b) && same_text(x, y),
            (Token::Identifier(a, x), Token::Identifier(b, y)) => same_range(a, b) && same_text(x, y),
            (Token::Number(a, x), Token::Number(b, y)) => same_range(a, b) && x == y,
            (Token::Whitespace(a), Token::Whitespace(b)) => same_range(a, b),
            (Token::Newline(a), Token::Newline(b)) => same_range(a, b),
            _ => false,
        }
    }
}

impl vstd::std_specs::cmp::PartialEqSpecImpl for Token {
    open spec fn obeys_eq_spec() -> bool {
        true
    }

    open spec fn eq_spec(&self, o: &Token) -> bool {
        self@ == o@
    }
}

/// A recoverable error: the span of the characters that were skipped, and
/// what went wrong there.
#[derive(Debug)]
pub struct Error {
    pub range: Range<usize>,
    pub kind: ErrorKind,
}

impl View for Error {
    type V = Piece;

    open spec fn view(&self) -> Piece {
        Piece {
            start: self.range.start as int,
            end: self.range.end as int,
            outcome: Outcome::Fail(self.kind),
        }
    }
}

impl PartialEq for Error {
    fn eq(&self, o: &Error) -> (r: bool)
        ensures
            r == (self@ == o@),
    {
        same_range(&self.range, &o.range) && self.kind == o.kind
    }
}

impl vstd::std_specs::cmp::PartialEqSpecImpl for Error {
    open spec fn obeys_eq_spec() -> bool {
        true
    }

    open spec fn eq_spec(&self, o: &Error) -> bool {
        self@ == o@
    }
}

pub open spec fn message_of(kind: ErrorKind) -> Seq<char> {
    match kind {
        ErrorKind::UnrecognizedCharacter => "unrecognized character"@,
        ErrorKind::MalformedDecimalLiteral => "malformed decimal literal"@,
        ErrorKind::MalformedHexLiteral => "malformed hexadecimal literal"@,
    }
}

impl Error {
    /// A description of the error's kind.
    pub fn message(&self) -> (r: String)
        ensures
            r@ == message_of(self.kind),
    {
        match self.kind {
            ErrorKind::UnrecognizedCharacter => String::from_str("unrecognized character"),
            ErrorKind::MalformedDecimalLiteral => String::from_str("malformed decimal literal"),
            ErrorKind::MalformedHexLiteral => String::from_str("malformed hexadecimal literal"),
        }
    }
}

/// The errors recorded so far, in the order they were met. It belongs to
/// the caller; scanning only appends to it.
pub struct ErrorCollector {
    errors: Vec<Error>,
}

impl View for ErrorCollector {
    type V = Seq<Piece>;

    closed spec fn view(&self) -> Seq<Piece> {
        self.errors@.map_values(|e: Error| e@)
    }
}

impl ErrorCollector {
    pub fn new() -> (r: ErrorCollector)
        ensures
            r@ == Seq::<Piece>::empty(),
    {
        let r = ErrorCollector { errors: Vec::new() };
        assert(r@ =~= Seq::<Piece>::empty());
        r
    }

    /// Records one more error.
    pub fn push(&mut self, error: Error)
        ensures
            final(self)@ == old(self)@.push(error@),
    {
        self.errors.push(error);
        assert(final(self)@ =~= old(self)@.push(error@));
    }

    pub fn has_no_errors(&self) -> (r: bool)
        ensures
            r == (self@.len() == 0),
    {
        self.errors.len() == 0
    }

    pub fn len(&self) -> (r: usize)
        ensures
            r == self@.len(),
    {
        self.errors.len()
    }

    /// The recorded errors, in order.
    pub fn errors(&self) -> (r: &Vec<Error>)
        ensures
            r@.map_values(|e: Error| e@) == self@,
    {
        &self.errors
    }
}

impl Default for ErrorCollector {
    fn default() -> (r: ErrorCollector)
        ensures
            r@ == Seq::<Piece>::empty(),
    {
        ErrorCollector::new()
    }
}

} // verus!
