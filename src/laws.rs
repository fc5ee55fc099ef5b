//! What holds of every scan: the pieces cover the source exactly, scanning
//! takes at most one step per character, and scanning again gives the same.
use vstd::prelude::*;
use crate::lexical::{
    emitted, failed, lemma_pull, lemma_step_advances, option_seq, piece_at, pieces, pull,
    scanned_errors, scanned_tokens, step_end, Piece,
};
use crate::token::Token;

verus! {

/// The text that the pieces cover, one after another.
pub open spec fn covered(s: Seq<char>, ps: Seq<Piece>) -> Seq<char>
    decreases ps.len(),
{
    if ps.len() == 0 {
        seq![]
    } else {
        s.subrange(ps[0].start, ps[0].end) + covered(s, ps.drop_first())
    }
}

/// The pieces lie one after another without gap or overlap, each holds at
/// least one character, and the first starts at `from`.
pub open spec fn contiguous(ps: Seq<Piece>, from: int, to: int) -> bool {
    &&& forall|k: int| 0 <= k < ps.len() ==> #[trigger] ps[k].start < ps[k].end
    &&& forall|k: int| 0 <= k < ps.len() - 1 ==> #[trigger] ps[k].end == ps[k + 1].start
    &&& ps.len() > 0 ==> ps[0].start == from && ps.last().end == to
    &&& ps.len() == 0 ==> from == to
}

proof fn lemma_pieces_from(s: Seq<char>, i: int)
    requires
        0 <= i <= s.len(),
    ensures
        covered(s, pieces(s, i)) == s.subrange(i, s.len() as int),
        contiguous(pieces(s, i), i, s.len() as int),
        pieces(s, i).len() <= s.len() - i,
    decreases s.len() - i,
{
    let ps = pieces(s, i);
    if i < s.len() {
        lemma_step_advances(s, i);
        let e = step_end(s, i);
        lemma_pieces_from(s, e);
        let rest = pieces(s, e);
        assert(ps.drop_first() =~= rest);
        assert(s.subrange(i, e) + s.subrange(e, s.len() as int) =~= s.subrange(i, s.len() as int));
        assert forall|k: int| 0 <= k < ps.len() implies #[trigger] ps[k].start < ps[k].end by {
            if k > 0 {
                assert(ps[k] == rest[k - 1]);
            }
        }
        assert forall|k: int| 0 <= k < ps.len() - 1 implies #[trigger] ps[k].end == ps[k
            + 1].start by {
            if k > 0 {
                assert(ps[k] == rest[k - 1]);
                assert(ps[k + 1] == rest[k]);
            }
        }
        if rest.len() > 0 {
            assert(ps.last() == rest.last());
        }
    } else {
        assert(ps =~= Seq::<Piece>::empty());
        assert(s.subrange(i, s.len() as int) =~= Seq::<char>::empty());
    }
}

/// The spans of the tokens and of the errors, taken together in the order
/// the scan meets them, cover the source exactly: concatenated, their text is
/// the source, with no gap and no overlap.
pub proof fn lemma_coverage(s: Seq<char>)
    ensures
        covered(s, pieces(s, 0)) == s,
        contiguous(pieces(s, 0), 0, s.len() as int),
{
    lemma_pieces_from(s, 0);
    assert(s.subrange(0, s.len() as int) =~= s);
}

proof fn lemma_split_count(ps: Seq<Piece>)
    ensures
        emitted(ps).len() + failed(ps).len() == ps.len(),
    decreases ps.len(),
{
    if ps.len() > 0 {
        lemma_split_count(ps.drop_first());
    }
}

/// Every step of a scan consumes at least one character, so a source of `n`
/// characters gives at most `n` tokens and errors together.
pub proof fn lemma_totality(s: Seq<char>)
    ensures
        forall|k: int|
            0 <= k < pieces(s, 0).len() ==> #[trigger] pieces(s, 0)[k].start < pieces(s, 0)[k].end,
        scanned_tokens(s).len() + scanned_errors(s).len() <= s.len(),
{
    lemma_pieces_from(s, 0);
    lemma_split_count(pieces(s, 0));
}

/// Scanning the same text twice gives equal tokens, one for one (equal as
/// `==` compares tokens), and the same errors.
pub proof fn lemma_rescan_identical(
    s: Seq<char>,
    first: Seq<Token>,
    second: Seq<Token>,
    first_errors: Seq<Piece>,
    second_errors: Seq<Piece>,
)
    requires
        first.map_values(|t: Token| t@) == scanned_tokens(s),
        second.map_values(|t: Token| t@) == scanned_tokens(s),
        first_errors == scanned_errors(s),
        second_errors == scanned_errors(s),
    ensures
        first.len() == second.len(),
        forall|k: int| 0 <= k < first.len() ==> (#[trigger] first[k])@ == second[k]@,
        first_errors == second_errors,
{
    assert(first.map_values(|t: Token| t@).len() == first.len());
    assert(second.map_values(|t: Token| t@).len() == second.len());
    assert forall|k: int| 0 <= k < first.len() implies (#[trigger] first[k])@ == second[k]@ by {
        assert(first.map_values(|t: Token| t@)[k] == second.map_values(|t: Token| t@)[k]);
    }
}


/// What pulling with `Scanner::next` from position `i` until it returns
/// `None` meets, in order: before each token, the errors recorded by the
/// call that returns it.
pub open spec fn pulled_pieces(s: Seq<char>, i: int) -> Seq<Piece>
    decreases s.len() - i,
    via pulls_decrease
{
    if 0 <= i < s.len() {
        let p = pull(s, i);
        p.errors + option_seq(p.token) + pulled_pieces(s, p.rest)
    } else {
        seq![]
    }
}

/// The tokens that pulling from position `i` until `None` returns.
pub open spec fn pulled_tokens(s: Seq<char>, i: int) -> Seq<Piece>
    decreases s.len() - i,
    via pulled_tokens_decrease
{
    if 0 <= i < s.len() {
        let p = pull(s, i);
        option_seq(p.token) + pulled_tokens(s, p.rest)
    } else {
        seq![]
    }
}

/// The errors that pulling from position `i` until `None` records.
pub open spec fn pulled_errors(s: Seq<char>, i: int) -> Seq<Piece>
    decreases s.len() - i,
    via pulled_errors_decrease
{
    if 0 <= i < s.len() {
        let p = pull(s, i);
        p.errors + pulled_errors(s, p.rest)
    } else {
        seq![]
    }
}

#[via_fn]
proof fn pulls_decrease(s: Seq<char>, i: int) {
    if 0 <= i < s.len() {
        lemma_pull(s, i);
    }
}

#[via_fn]
proof fn pulled_tokens_decrease(s: Seq<char>, i: int) {
    if 0 <= i < s.len() {
        lemma_pull(s, i);
    }
}

#[via_fn]
proof fn pulled_errors_decrease(s: Seq<char>, i: int) {
    if 0 <= i < s.len() {
        lemma_pull(s, i);
    }
}

/// The pieces from `i` on are the errors of one pull, its token, and the
/// pieces after it.
proof fn lemma_pull_pieces(s: Seq<char>, i: int)
    requires
        0 <= i <= s.len(),
    ensures
        pieces(s, i) == pull(s, i).errors + option_seq(pull(s, i).token) + pieces(
            s,
            pull(s, i).rest,
        ),
    decreases s.len() - i,
{
    if i < s.len() {
        lemma_step_advances(s, i);
        let p = piece_at(s, i);
        let rest = pieces(s, p.end);
        assert(pieces(s, i) == seq![p] + rest);
        if p.outcome is Emit {
            assert(seq![p] + rest =~= Seq::<Piece>::empty() + seq![p] + rest);
        } else {
            lemma_pull_pieces(s, p.end);
            let next = pull(s, p.end);
            assert(seq![p] + (next.errors + option_seq(next.token) + pieces(s, next.rest)) =~= (
            seq![p] + next.errors) + option_seq(next.token) + pieces(s, next.rest));
        }
    } else {
        assert(pieces(s, i) =~= Seq::<Piece>::empty());
        assert(pieces(s, i) =~= Seq::<Piece>::empty() + option_seq(None) + pieces(s, i));
    }
}

proof fn lemma_pulls_from(s: Seq<char>, i: int)
    requires
        0 <= i <= s.len(),
    ensures
        pulled_pieces(s, i) == pieces(s, i),
        pulled_tokens(s, i) == emitted(pieces(s, i)),
        pulled_errors(s, i) == failed(pieces(s, i)),
    decreases s.len() - i,
{
    lemma_pull(s, i);
    if i < s.len() {
        let p = pull(s, i);
        lemma_pulls_from(s, p.rest);
        lemma_pull_pieces(s, i);
    } else {
        assert(pieces(s, i) =~= Seq::<Piece>::empty());
    }
}

/// Pulling with `Scanner::next` from a new scanner until it returns `None`
/// meets the same pieces in the same order as `scan`: it returns the same
/// tokens and records the same errors. So the laws above hold of such a
/// sequence of calls as well.
pub proof fn lemma_pulls_are_the_scan(s: Seq<char>)
    ensures
        pulled_pieces(s, 0) == pieces(s, 0),
        pulled_tokens(s, 0) == scanned_tokens(s),
        pulled_errors(s, 0) == scanned_errors(s),
        covered(s, pulled_pieces(s, 0)) == s,
        contiguous(pulled_pieces(s, 0), 0, s.len() as int),
        pulled_tokens(s, 0).len() + pulled_errors(s, 0).len() <= s.len(),
{
    lemma_pulls_from(s, 0);
    lemma_coverage(s);
    lemma_totality(s);
}

} // verus!
