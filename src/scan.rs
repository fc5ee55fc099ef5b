//! The scanning engine: a cursor over the source, the dispatcher and the
//! sub-scanners for literals, and the pull of one token at a time.
use std::ops::Range;
use vstd::prelude::*;
use vstd::std_specs::iter::IteratorSpec;
use crate::lexical::{
    continues, digit_value, emitted, failed, is_hex_digit, is_identifier_start,
    lemma_number_value_prefix, lemma_pull, lemma_run_end_bounds, lemma_step_advances,
    number_value, piece_at, pieces, pull, run_end, scanned_errors, scanned_tokens,
    starts_decimal, step_end, ErrorKind, Outcome, Piece, Run,
};
use crate::token::{Error, ErrorCollector, Token};

verus! {

/// A scan in progress. The unconsumed remainder of the source starts at
/// `offset`; the token being built covers the `cursor` characters after it.
pub struct Scanner {
    /// The characters of the whole source.
    chars: Vec<char>,
    /// The offset of the remainder from the start of the source.
    offset: usize,
    /// The length of the token being built.
    cursor: usize,
}

/// Scans the whole of `source`: returns its tokens in order, and appends to
/// `errors` the errors met on the way, in order.
pub fn scan(source: &str, errors: &mut ErrorCollector) -> (r: Vec<Token>)
    ensures
        r@.map_values(|t: Token| t@) == scanned_tokens(source@),
        final(errors)@ == old(errors)@ + scanned_errors(source@),
{
    let mut scanner = Scanner::new(source);
    let mut tokens: Vec<Token> = Vec::new();
    let ghost s = source@;
    assert(tokens@.map_values(|t: Token| t@) + emitted(pieces(s, 0)) =~= emitted(pieces(s, 0)));
    assert(old(errors)@ + failed(pieces(s, 0)) =~= errors@ + failed(pieces(s, 0)));
    loop
        invariant
            scanner.idle(),
            scanner.source() == s,
            0 <= scanner.position() <= s.len(),
            emitted(pieces(s, 0)) == tokens@.map_values(|t: Token| t@) + emitted(
                pieces(s, scanner.position()),
            ),
            old(errors)@ + failed(pieces(s, 0)) == errors@ + failed(pieces(s, scanner.position())),
        ensures
            emitted(pieces(s, 0)) == tokens@.map_values(|t: Token| t@),
            old(errors)@ + failed(pieces(s, 0)) == errors@,
        decreases s.len() - scanner.position(),
    {
        let ghost before = scanner.position();
        let ghost seen = tokens@.map_values(|t: Token| t@);
        let ghost recorded = errors@;
        proof {
            lemma_pull(s, before);
        }
        let ghost p = pull(s, before);
        let next = scanner.next(errors);
        assert(recorded + failed(pieces(s, before)) =~= errors@ + failed(pieces(s, p.rest)));
        match next {
            Some(token) => {
                tokens.push(token);
                assert(tokens@.map_values(|t: Token| t@) =~= seen.push(token@));
                assert(seen + emitted(pieces(s, before)) =~= tokens@.map_values(|t: Token| t@)
                    + emitted(pieces(s, p.rest)));
            },
            None => {
                assert(pieces(s, s.len() as int) =~= Seq::<Piece>::empty());
                assert(seen + emitted(pieces(s, before)) =~= tokens@.map_values(|t: Token| t@)
                    + emitted(pieces(s, p.rest)));
                assert(tokens@.map_values(|t: Token| t@) + emitted(pieces(s, p.rest))
                    =~= tokens@.map_values(|t: Token| t@));
                assert(errors@ + failed(pieces(s, p.rest)) =~= errors@);
                break;
            },
        }
    }
    assert(tokens@.map_values(|t: Token| t@) =~= scanned_tokens(s));
    assert(errors@ =~= old(errors)@ + scanned_errors(s));
    tokens
}

/// Relies on `String::push`, which appends the character to the end of the
/// string.
#[verifier::external_body]
fn push_char(text: &mut String, c: char)
    ensures
        final(text)@ == old(text)@.push(c),
{
    text.push(c)
}

/// The piece that a pull's token stands for.
pub open spec fn token_piece(r: Option<Token>) -> Option<Piece> {
    match r {
        Some(t) => Some(t@),
        None => None,
    }
}

/// The piece that a step's result stands for.
pub open spec fn result_piece(r: Result<Token, Error>) -> Piece {
    match r {
        Ok(t) => t@,
        Err(e) => e@,
    }
}

fn digit_of(c: char) -> (r: u32)
    requires
        is_hex_digit(c),
    ensures
        r == digit_value(c),
{
    if '0' <= c && c <= '9' {
        (c as u32) - ('0' as u32)
    } else {
        (c as u32) - ('a' as u32) + 10
    }
}

/// The value in the given base of the digits at `[from, to)`, where it fits
/// in 32 bits.
fn parse_digits(chars: &Vec<char>, from: usize, to: usize, base: u32) -> (r: Option<u32>)
    requires
        from <= to <= chars@.len(),
        base == 10 || base == 16,
        forall|k: int| from <= k < to ==> is_hex_digit(#[trigger] chars@[k]),
    ensures
        r == (if number_value(chars@.subrange(from as int, to as int), base as nat) <= u32::MAX {
            Some(number_value(chars@.subrange(from as int, to as int), base as nat) as u32)
        } else {
            None::<u32>
        }),
{
    let ghost all = chars@.subrange(from as int, to as int);
    let mut acc: u32 = 0;
    let mut k: usize = from;
    assert(chars@.subrange(from as int, from as int) =~= Seq::<char>::empty());
    while k < to
        invariant
            from <= k <= to <= chars@.len(),
            base == 10 || base == 16,
            forall|j: int| from <= j < to ==> is_hex_digit(#[trigger] chars@[j]),
            all == chars@.subrange(from as int, to as int),
            acc as nat == number_value(chars@.subrange(from as int, k as int), base as nat),
        decreases to - k,
    {
        let d = digit_of(chars[k]);
        assert(acc as u64 * base as u64 <= 0xffff_ffffu64 * 16) by (nonlinear_arith)
            requires
                base <= 16,
                acc <= 0xffff_ffffu32,
        ;
        let next: u64 = acc as u64 * base as u64 + d as u64;
        let ghost prefix = chars@.subrange(from as int, k + 1);
        assert(prefix.drop_last() =~= chars@.subrange(from as int, k as int));
        assert(next == number_value(prefix, base as nat));
        if next > 0xffff_ffffu64 {
            proof {
                lemma_number_value_prefix(all, k + 1 - from, base as nat);
                assert(all.subrange(0, k + 1 - from) =~= prefix);
            }
            return None;
        }
        acc = next as u32;
        k = k + 1;
    }
    assert(chars@.subrange(from as int, k as int) =~= all);
    Some(acc)
}

impl Scanner {
    pub closed spec fn source(&self) -> Seq<char> {
        self.chars@
    }

    /// The position up to which the source has been scanned.
    pub closed spec fn position(&self) -> int {
        self.offset as int
    }

    spec fn point(&self) -> int {
        self.offset + self.cursor
    }

    pub closed spec fn wf(&self) -> bool {
        &&& self.offset + self.cursor <= self.chars@.len()
        &&& self.chars@.len() <= usize::MAX
    }

    /// Between two tokens: no character is pending.
    pub closed spec fn idle(&self) -> bool {
        self.wf() && self.cursor == 0
    }

    /// Starts a scan of `source` at its beginning.
    pub fn new(source: &str) -> (r: Scanner)
        ensures
            r.idle(),
            r.source() == source@,
            r.position() == 0,
    {
        let mut it = source.chars();
        let mut chars: Vec<char> = Vec::new();
        loop
            invariant
                it.obeys_prophetic_iter_laws(),
                it.decrease() is Some,
                chars@ + it.remaining() == source@,
            ensures
                chars@ == source@,
            decreases it.decrease()->0,
        {
            match it.next() {
                Some(c) => {
                    chars.push(c);
                },
                None => {
                    break;
                },
            }
        }
        assert(chars@.len() == chars.len());
        Scanner { chars, offset: 0, cursor: 0 }
    }

    /// Whether the whole source has been scanned.
    fn is_at_end(&self) -> (r: bool)
        requires
            self.wf(),
        ensures
            r == (self.position() == self.source().len() && self.cursor == 0),
    {
        self.cursor == 0 && self.offset == self.chars.len()
    }

    /// Commits the token being built: the remainder starts after it.
    fn flush(&mut self)
        requires
            old(self).wf(),
        ensures
            final(self).idle(),
            final(self).source() == old(self).source(),
            final(self).position() == old(self).point(),
    {
        self.offset = self.offset + self.cursor;
        self.cursor = 0;
    }

    /// The text of the token being built, without its first `skip` characters.
    fn lexeme_from(&self, skip: usize) -> (r: String)
        requires
            self.wf(),
            skip <= self.cursor,
        ensures
            r@ == self.source().subrange(self.offset + skip, self.point()),
    {
        let mut text = String::new();
        let mut k: usize = self.offset + skip;
        while k < self.offset + self.cursor
            invariant
                self.wf(),
                self.offset + skip <= k <= self.point(),
                text@ == self.source().subrange(self.offset + skip, k as int),
            decreases self.point() - k,
        {
            push_char(&mut text, self.chars[k]);
            k = k + 1;
            assert(text@ =~= self.source().subrange(self.offset + skip, k as int));
        }
        text
    }

    /// The character `ahead` places after the token being built, if any.
    fn peek(&self, ahead: usize) -> (r: Option<char>)
        requires
            self.wf(),
        ensures
            self.point() + ahead < self.source().len() ==> r == Some(
                self.source()[self.point() + ahead],
            ),
            self.point() + ahead >= self.source().len() ==> r is None,
    {
        let n = self.chars.len();
        if ahead < n - self.offset - self.cursor {
            Some(self.chars[self.offset + self.cursor + ahead])
        } else {
            None
        }
    }

    /// Adds the next character to the token being built, and returns it.
    fn advance(&mut self) -> (r: char)
        requires
            old(self).wf(),
            old(self).point() < old(self).source().len(),
        ensures
            final(self).wf(),
            final(self).source() == old(self).source(),
            final(self).offset == old(self).offset,
            final(self).cursor == old(self).cursor + 1,
            r == old(self).source()[old(self).point()],
    {
        let c = self.chars[self.offset + self.cursor];
        self.cursor = self.cursor + 1;
        c
    }

    /// Whether the run goes on through the next character.
    fn run_continues(&self, run: Run) -> (r: bool)
        requires
            self.wf(),
        ensures
            r == (self.point() < self.source().len() && continues(run, self.source(), self.point())),
    {
        match self.peek(0) {
            None => false,
            Some(c) => match run {
                Run::Decimal => '0' <= c && c <= '9',
                Run::Hex => ('0' <= c && c <= '9') || ('a' <= c && c <= 'f'),
                Run::Identifier => ('a' <= c && c <= 'z') || ('A' <= c && c <= 'Z') || ('0' <= c
                    && c <= '9') || c == '_',
                Run::Comment => c != '\n',
            },
        }
    }

    /// Adds the maximal run of the given kind to the token being built, and
    /// returns the text of the token so far.
    fn advance_while(&mut self, run: Run) -> (r: String)
        requires
            old(self).wf(),
        ensures
            final(self).wf(),
            final(self).source() == old(self).source(),
            final(self).offset == old(self).offset,
            final(self).point() == run_end(run, old(self).source(), old(self).point()),
            r@ == final(self).source().subrange(final(self).offset as int, final(self).point()),
    {
        while self.run_continues(run)
            invariant
                self.wf(),
                self.source() == old(self).source(),
                self.offset == old(self).offset,
                old(self).point() <= self.point(),
                run_end(run, self.source(), self.point()) == run_end(
                    run,
                    old(self).source(),
                    old(self).point(),
                ),
            decreases self.source().len() - self.point(),
        {
            self.advance();
        }
        self.lexeme_from(0)
    }

    /// The span of the token being built.
    fn range(&self) -> (r: Range<usize>)
        requires
            self.wf(),
        ensures
            r.start == self.offset,
            r.end == self.point(),
    {
        Range { start: self.offset, end: self.offset + self.cursor }
    }

    /// An error of the given kind over the span of the token being built.
    fn error(&self, kind: ErrorKind) -> (r: Error)
        requires
            self.wf(),
        ensures
            r@ == (Piece { start: self.offset as int, end: self.point(), outcome: Outcome::Fail(kind) }),
    {
        Error { range: self.range(), kind }
    }
}

impl Scanner {
    /// Scans one piece, which starts at the current position, and commits it.
    fn scan_next_token(&mut self) -> (r: Result<Token, Error>)
        requires
            old(self).idle(),
            old(self).position() < old(self).source().len(),
        ensures
            final(self).idle(),
            final(self).source() == old(self).source(),
            final(self).position() == step_end(old(self).source(), old(self).position()),
            result_piece(r) == piece_at(old(self).source(), old(self).position()),
    {
        let c = self.advance();
        let next = self.peek(0);
        let next_is_digit = match next {
            Some(d) => '0' <= d && d <= '9',
            None => false,
        };
        let token = if c == '(' {
            Ok(Token::OpeningParen(self.range()))
        } else if c == ')' {
            Ok(Token::ClosingParen(self.range()))
        } else if c == ',' {
            Ok(Token::Comma(self.range()))
        } else if c == '.' {
            Ok(Token::Dot(self.range()))
        } else if c == '+' {
            Ok(Token::Plus(self.range()))
        } else if c == '#' {
            Ok(Token::NumberSign(self.range()))
        } else if c == ':' {
            Ok(Token::Colon(self.range()))
        } else if ('0' <= c && c <= '9') || (c == '-' && next_is_digit) {
            self.parse_decimal_number()
        } else if c == '$' {
            self.parse_hex_number()
        } else if c == '-' {
            Ok(Token::Minus(self.range()))
        } else if c == '*' {
            self.parse_comment()
        } else if c == ' ' || c == '\t' || c == '\u{2009}' {
            Ok(Token::Whitespace(self.range()))
        } else if c == '\r' && next == Some('\n') {
            self.advance();
            Ok(Token::Newline(self.range()))
        } else if c == '\n' {
            Ok(Token::Newline(self.range()))
        } else if ('a' <= c && c <= 'z') || ('A' <= c && c <= 'Z') || c == '_' {
            self.parse_identifier()
        } else {
            Err(self.error(ErrorKind::UnrecognizedCharacter))
        };
        self.flush();
        token
    }

    /// Produces the next token, and records the errors met before it;
    /// `None` once the whole source has been scanned.
    pub fn next(&mut self, errors: &mut ErrorCollector) -> (r: Option<Token>)
        requires
            old(self).idle(),
        ensures
            final(self).idle(),
            final(self).source() == old(self).source(),
            final(self).position() == pull(old(self).source(), old(self).position()).rest,
            token_piece(r) == pull(old(self).source(), old(self).position()).token,
            final(errors)@ == old(errors)@ + pull(old(self).source(), old(self).position()).errors,
    {
        let ghost s = self.source();
        let ghost start = self.position();
        let ghost skipped: Seq<Piece> = seq![];
        assert(pull(s, start).errors =~= skipped + pull(s, start).errors);
        assert(errors@ =~= old(errors)@ + skipped);
        while !self.is_at_end()
            invariant
                self.idle(),
                self.source() == s,
                s == old(self).source(),
                start == old(self).position(),
                start <= self.position() <= s.len(),
                pull(s, start).token == pull(s, self.position()).token,
                pull(s, start).rest == pull(s, self.position()).rest,
                pull(s, start).errors == skipped + pull(s, self.position()).errors,
                errors@ == old(errors)@ + skipped,
            decreases s.len() - self.position(),
        {
            let ghost here = self.position();
            proof {
                lemma_step_advances(s, here);
            }
            match self.scan_next_token() {
                Ok(token) => {
                    assert(skipped + pull(s, here).errors =~= skipped);
                    return Some(token);
                },
                Err(error) => {
                    let ghost p = piece_at(s, here);
                    errors.push(error);
                    assert(skipped + pull(s, here).errors =~= skipped.push(p) + pull(
                        s,
                        self.position(),
                    ).errors);
                    proof {
                        skipped = skipped.push(p);
                    }
                },
            }
        }
        assert(skipped + pull(s, self.position()).errors =~= skipped);
        None
    }

    /// Scans a decimal literal whose first character has been consumed.
    fn parse_decimal_number(&mut self) -> (r: Result<Token, Error>)
        requires
            old(self).wf(),
            old(self).cursor == 1,
            starts_decimal(old(self).source(), old(self).offset as int),
        ensures
            final(self).wf(),
            final(self).source() == old(self).source(),
            final(self).offset == old(self).offset,
            final(self).point() == step_end(old(self).source(), old(self).offset as int),
            result_piece(r) == piece_at(old(self).source(), old(self).offset as int),
    {
        proof {
            lemma_run_end_bounds(Run::Decimal, self.source(), self.point());
        }
        self.advance_while(Run::Decimal);
        if self.chars[self.offset] == '-' {
            return Err(self.error(ErrorKind::MalformedDecimalLiteral));
        }
        assert forall|k: int| self.offset <= k < self.point() implies is_hex_digit(
            #[trigger] self.chars@[k],
        ) by {
            if k > self.offset {
                assert(continues(Run::Decimal, self.source(), k));
            }
        }
        match parse_digits(&self.chars, self.offset, self.offset + self.cursor, 10) {
            Some(number) => Ok(Token::Number(self.range(), number)),
            None => Err(self.error(ErrorKind::MalformedDecimalLiteral)),
        }
    }

    /// Scans a hexadecimal literal whose `$` has been consumed.
    fn parse_hex_number(&mut self) -> (r: Result<Token, Error>)
        requires
            old(self).wf(),
            old(self).cursor == 1,
            old(self).source()[old(self).offset as int] == '$',
        ensures
            final(self).wf(),
            final(self).source() == old(self).source(),
            final(self).offset == old(self).offset,
            final(self).point() == step_end(old(self).source(), old(self).offset as int),
            result_piece(r) == piece_at(old(self).source(), old(self).offset as int),
    {
        proof {
            lemma_run_end_bounds(Run::Hex, self.source(), self.point());
        }
        self.advance_while(Run::Hex);
        if self.cursor == 1 {
            return Err(self.error(ErrorKind::MalformedHexLiteral));
        }
        assert forall|k: int| self.offset + 1 <= k < self.point() implies is_hex_digit(
            #[trigger] self.chars@[k],
        ) by {
            assert(continues(Run::Hex, self.source(), k));
        }
        match parse_digits(&self.chars, self.offset + 1, self.offset + self.cursor, 16) {
            Some(number) => Ok(Token::Number(self.range(), number)),
            None => Err(self.error(ErrorKind::MalformedHexLiteral)),
        }
    }

    /// Scans a comment whose `*` has been consumed, up to the end of the line.
    fn parse_comment(&mut self) -> (r: Result<Token, Error>)
        requires
            old(self).wf(),
            old(self).cursor == 1,
            old(self).source()[old(self).offset as int] == '*',
        ensures
            final(self).wf(),
            final(self).source() == old(self).source(),
            final(self).offset == old(self).offset,
            final(self).point() == step_end(old(self).source(), old(self).offset as int),
            result_piece(r) == piece_at(old(self).source(), old(self).offset as int),
    {
        proof {
            lemma_run_end_bounds(Run::Comment, self.source(), self.point());
        }
        self.advance_while(Run::Comment);
        let content = self.lexeme_from(1);
        Ok(Token::Comment(self.range(), content))
    }

    /// Scans an identifier whose first character has been consumed.
    fn parse_identifier(&mut self) -> (r: Result<Token, Error>)
        requires
            old(self).wf(),
            old(self).cursor == 1,
            is_identifier_start(old(self).source()[old(self).offset as int]),
        ensures
            final(self).wf(),
            final(self).source() == old(self).source(),
            final(self).offset == old(self).offset,
            final(self).point() == step_end(old(self).source(), old(self).offset as int),
            result_piece(r) == piece_at(old(self).source(), old(self).offset as int),
    {
        proof {
            lemma_run_end_bounds(Run::Identifier, self.source(), self.point());
        }
        let identifier = self.advance_while(Run::Identifier);
        Ok(Token::Identifier(self.range(), identifier))
    }
}

} // verus!
