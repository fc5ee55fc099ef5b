//! The lexical grammar as mathematics: character classes, the extent and
//! outcome of one scanning step, and the division of a whole source into
//! consecutive pieces.
use vstd::prelude::*;

verus! {

/// The error kinds of the scanner; none of them stops the scan.
#[derive(Clone, Copy, Debug, PartialEq, Eq, Structural)]
pub enum ErrorKind {
    UnrecognizedCharacter,
    MalformedDecimalLiteral,
    MalformedHexLiteral,
}

/// What a token is, apart from where it stands.
pub enum Shape {
    OpeningParen,
    ClosingParen,
    Comma,
    Dot,
    Minus,
    Plus,
    NumberSign,
    Colon,
    Comment(Seq<char>),
    Identifier(Seq<char>),
    Number(u32),
    Whitespace,
    Newline,
}

/// What one scanning step produces: a token, or a recorded error.
pub enum Outcome {
    Emit(Shape),
    Fail(ErrorKind),
}

/// One scanning step over the half-open span `[start, end)`.
pub struct Piece {
    pub start: int,
    pub end: int,
    pub outcome: Outcome,
}

/// The maximal runs that the sub-scanners consume.
#[derive(Clone, Copy, Debug, PartialEq, Eq, Structural)]
pub enum Run {
    Decimal,
    Hex,
    Identifier,
    Comment,
}

pub open spec fn is_digit(c: char) -> bool {
    '0' <= c && c <= '9'
}

/// Hexadecimal digits are the decimal digits and the lower-case letters
/// `a` to `f`; upper-case letters are not digits.
pub open spec fn is_hex_digit(c: char) -> bool {
    is_digit(c) || ('a' <= c && c <= 'f')
}

pub open spec fn is_letter(c: char) -> bool {
    ('a' <= c && c <= 'z') || ('A' <= c && c <= 'Z')
}

pub open spec fn is_identifier_start(c: char) -> bool {
    is_letter(c) || c == '_'
}

pub open spec fn is_identifier_char(c: char) -> bool {
    is_letter(c) || is_digit(c) || c == '_'
}

/// Space, tab and the thin space U+2009.
pub open spec fn is_blank(c: char) -> bool {
    c == ' ' || c == '\t' || c == '\u{2009}'
}

/// The characters that form a token of their own: `( ) , . + # :`.
pub open spec fn is_single(c: char) -> bool {
    c == '(' || c == ')' || c == ',' || c == '.' || c == '+' || c == '#' || c == ':'
}

/// Whether the run goes on through the character at `i` (which lies in `s`).
pub open spec fn continues(run: Run, s: Seq<char>, i: int) -> bool {
    match run {
        Run::Decimal => is_digit(s[i]),
        Run::Hex => is_hex_digit(s[i]),
        Run::Identifier => is_identifier_char(s[i]),
        Run::Comment => s[i] != '\n',
    }
}

/// Where a maximal run that starts at `i` ends.
pub open spec fn run_end(run: Run, s: Seq<char>, i: int) -> int
    decreases s.len() - i,
{
    if 0 <= i < s.len() && continues(run, s, i) {
        run_end(run, s, i + 1)
    } else {
        i
    }
}

pub open spec fn digit_value(c: char) -> nat {
    if is_digit(c) {
        (c as int - '0' as int) as nat
    } else {
        (c as int - 'a' as int + 10) as nat
    }
}

/// The value of a digit sequence in the given base, most significant first.
pub open spec fn number_value(digits: Seq<char>, base: nat) -> nat
    decreases digits.len(),
{
    if digits.len() == 0 {
        0
    } else {
        number_value(digits.drop_last(), base) * base + digit_value(digits.last())
    }
}

/// A `-` directly followed by a digit starts a decimal literal.
pub open spec fn starts_decimal(s: Seq<char>, i: int) -> bool {
    is_digit(s[i]) || (s[i] == '-' && i + 1 < s.len() && is_digit(s[i + 1]))
}

/// Where the piece that starts at `i` (which lies in `s`) ends.
pub open spec fn step_end(s: Seq<char>, i: int) -> int {
    let c = s[i];
    if is_single(c) {
        i + 1
    } else if starts_decimal(s, i) {
        run_end(Run::Decimal, s, i + 1)
    } else if c == '$' {
        run_end(Run::Hex, s, i + 1)
    } else if c == '*' {
        run_end(Run::Comment, s, i + 1)
    } else if c == '\r' && i + 1 < s.len() && s[i + 1] == '\n' {
        i + 2
    } else if is_identifier_start(c) {
        run_end(Run::Identifier, s, i + 1)
    } else {
        i + 1
    }
}

/// A number token, or the given error where the value does not fit in 32 bits.
pub open spec fn number_outcome(value: nat, kind: ErrorKind) -> Outcome {
    if value <= u32::MAX {
        Outcome::Emit(Shape::Number(value as u32))
    } else {
        Outcome::Fail(kind)
    }
}

/// What the piece that starts at `i` (which lies in `s`) produces.
///
/// A decimal literal that starts with `-` has no unsigned value and is
/// malformed; a lone `\r` is an unrecognized character.
pub open spec fn step_outcome(s: Seq<char>, i: int) -> Outcome {
    let c = s[i];
    let e = step_end(s, i);
    if c == '(' {
        Outcome::Emit(Shape::OpeningParen)
    } else if c == ')' {
        Outcome::Emit(Shape::ClosingParen)
    } else if c == ',' {
        Outcome::Emit(Shape::Comma)
    } else if c == '.' {
        Outcome::Emit(Shape::Dot)
    } else if c == '+' {
        Outcome::Emit(Shape::Plus)
    } else if c == '#' {
        Outcome::Emit(Shape::NumberSign)
    } else if c == ':' {
        Outcome::Emit(Shape::Colon)
    } else if starts_decimal(s, i) {
        if c == '-' {
            Outcome::Fail(ErrorKind::MalformedDecimalLiteral)
        } else {
            number_outcome(number_value(s.subrange(i, e), 10), ErrorKind::MalformedDecimalLiteral)
        }
    } else if c == '$' {
        if e == i + 1 {
            Outcome::Fail(ErrorKind::MalformedHexLiteral)
        } else {
            number_outcome(number_value(s.subrange(i + 1, e), 16), ErrorKind::MalformedHexLiteral)
        }
    } else if c == '-' {
        Outcome::Emit(Shape::Minus)
    } else if c == '*' {
        Outcome::Emit(Shape::Comment(s.subrange(i + 1, e)))
    } else if is_blank(c) {
        Outcome::Emit(Shape::Whitespace)
    } else if c == '\n' || (c == '\r' && i + 1 < s.len() && s[i + 1] == '\n') {
        Outcome::Emit(Shape::Newline)
    } else if is_identifier_start(c) {
        Outcome::Emit(Shape::Identifier(s.subrange(i, e)))
    } else {
        Outcome::Fail(ErrorKind::UnrecognizedCharacter)
    }
}

/// A digit sequence is worth at least as much as any of its prefixes.
pub proof fn lemma_number_value_prefix(d: Seq<char>, j: int, base: nat)
    requires
        0 <= j <= d.len(),
        base >= 1,
    ensures
        number_value(d.subrange(0, j), base) <= number_value(d, base),
    decreases d.len(),
{
    if j == d.len() {
        assert(d.subrange(0, j) =~= d);
    } else {
        let shorter = d.drop_last();
        lemma_number_value_prefix(shorter, j, base);
        assert(shorter.subrange(0, j) =~= d.subrange(0, j));
        let v = number_value(shorter, base);
        assert(v * base >= v) by (nonlinear_arith)
            requires
                base >= 1,
                v >= 0,
        ;
    }
}

pub open spec fn piece_at(s: Seq<char>, i: int) -> Piece {
    Piece { start: i, end: step_end(s, i), outcome: step_outcome(s, i) }
}

pub proof fn lemma_run_end_bounds(run: Run, s: Seq<char>, i: int)
    requires
        0 <= i <= s.len(),
    ensures
        i <= run_end(run, s, i) <= s.len(),
        forall|k: int| i <= k < run_end(run, s, i) ==> continues(run, s, k),
        run_end(run, s, i) < s.len() ==> !continues(run, s, run_end(run, s, i)),
    decreases s.len() - i,
{
    if i < s.len() && continues(run, s, i) {
        lemma_run_end_bounds(run, s, i + 1);
    }
}

/// Every step consumes at least one character and stays inside the source.
pub proof fn lemma_step_advances(s: Seq<char>, i: int)
    requires
        0 <= i < s.len(),
    ensures
        i < step_end(s, i) <= s.len(),
{
    lemma_run_end_bounds(Run::Decimal, s, i + 1);
    lemma_run_end_bounds(Run::Hex, s, i + 1);
    lemma_run_end_bounds(Run::Comment, s, i + 1);
    lemma_run_end_bounds(Run::Identifier, s, i + 1);
}


/// The source from position `i` on, divided into the pieces that scanning
/// produces one after another.
pub open spec fn pieces(s: Seq<char>, i: int) -> Seq<Piece>
    decreases s.len() - i,
    via pieces_decreases
{
    if 0 <= i < s.len() {
        seq![piece_at(s, i)] + pieces(s, step_end(s, i))
    } else {
        seq![]
    }
}

#[via_fn]
proof fn pieces_decreases(s: Seq<char>, i: int) {
    if 0 <= i < s.len() {
        lemma_step_advances(s, i);
    }
}

/// The pieces that are tokens, in order.
pub open spec fn emitted(ps: Seq<Piece>) -> Seq<Piece>
    decreases ps.len(),
{
    if ps.len() == 0 {
        seq![]
    } else if ps[0].outcome is Emit {
        seq![ps[0]] + emitted(ps.drop_first())
    } else {
        emitted(ps.drop_first())
    }
}

/// The pieces that are errors, in order.
pub open spec fn failed(ps: Seq<Piece>) -> Seq<Piece>
    decreases ps.len(),
{
    if ps.len() == 0 {
        seq![]
    } else if ps[0].outcome is Fail {
        seq![ps[0]] + failed(ps.drop_first())
    } else {
        failed(ps.drop_first())
    }
}

/// The tokens of a whole source.
pub open spec fn scanned_tokens(s: Seq<char>) -> Seq<Piece> {
    emitted(pieces(s, 0))
}

/// The errors of a whole source.
pub open spec fn scanned_errors(s: Seq<char>) -> Seq<Piece> {
    failed(pieces(s, 0))
}

/// What one pull from position `i` yields: the next token if any, the
/// errors met before it, and the position after it.
pub struct Pull {
    pub token: Option<Piece>,
    pub errors: Seq<Piece>,
    pub rest: int,
}

pub open spec fn pull(s: Seq<char>, i: int) -> Pull
    decreases s.len() - i,
    via pull_decreases
{
    if 0 <= i < s.len() {
        let p = piece_at(s, i);
        if p.outcome is Emit {
            Pull { token: Some(p), errors: seq![], rest: p.end }
        } else {
            let next = pull(s, p.end);
            Pull { token: next.token, errors: seq![p] + next.errors, rest: next.rest }
        }
    } else {
        Pull { token: None, errors: seq![], rest: i }
    }
}

#[via_fn]
proof fn pull_decreases(s: Seq<char>, i: int) {
    if 0 <= i < s.len() {
        lemma_step_advances(s, i);
    }
}

pub open spec fn option_seq(t: Option<Piece>) -> Seq<Piece> {
    match t {
        Some(p) => seq![p],
        None => seq![],
    }
}

/// One pull takes the next token off the pieces, with the errors before it.
pub proof fn lemma_pull(s: Seq<char>, i: int)
    requires
        0 <= i <= s.len(),
    ensures
        i <= pull(s, i).rest <= s.len(),
        i < s.len() ==> i < pull(s, i).rest,
        pull(s, i).token is None ==> pull(s, i).rest == s.len(),
        emitted(pieces(s, i)) == option_seq(pull(s, i).token) + emitted(
            pieces(s, pull(s, i).rest),
        ),
        failed(pieces(s, i)) == pull(s, i).errors + failed(pieces(s, pull(s, i).rest)),
    decreases s.len() - i,
{
    if i < s.len() {
        lemma_step_advances(s, i);
        let p = piece_at(s, i);
        let rest = pieces(s, p.end);
        let ps = pieces(s, i);
        assert(ps.drop_first() =~= rest);
        assert(ps[0] == p);
        if p.outcome is Emit {
            assert(emitted(ps) == seq![p] + emitted(rest));
            assert(failed(ps) == failed(rest));
            assert(seq![p] + emitted(rest) =~= option_seq(Some(p)) + emitted(rest));
            assert(failed(rest) =~= Seq::<Piece>::empty() + failed(rest));
        } else {
            lemma_pull(s, p.end);
            let next = pull(s, p.end);
            assert(emitted(ps) == emitted(rest));
            assert(failed(ps) == seq![p] + failed(rest));
            assert(seq![p] + (next.errors + failed(pieces(s, next.rest))) =~= (seq![p]
                + next.errors) + failed(pieces(s, next.rest)));
        }
    } else {
        assert(pieces(s, i) =~= Seq::<Piece>::empty());
        assert(emitted(pieces(s, i)) =~= option_seq(None) + emitted(pieces(s, i)));
        assert(failed(pieces(s, i)) =~= Seq::<Piece>::empty() + failed(pieces(s, i)));
    }
}

} // verus!
