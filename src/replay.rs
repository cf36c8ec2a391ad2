//! Replaying a move sequence from the starting position.
//!
//! Tokens that do not parse as a legal move in the position reached so far
//! are skipped: move-number markers (`1.`), annotations and stray words leave
//! the position unchanged. This is the policy of the opening tables, not an
//! accident of the implementation.
use vstd::prelude::*;
use crate::position::{Position, notation_after, start_notation};

verus! {

/// The whitespace-separated tokens of a text, in order.
pub uninterp spec fn whitespace_tokens_of(s: Seq<char>) -> Seq<Seq<char>>;

/// One token applied to a position: the move when it is legal there, and
/// nothing otherwise.
pub open spec fn apply_token(p: Seq<char>, token: Seq<char>) -> Seq<char> {
    match notation_after(p, token) {
        Some(q) => q,
        None => p,
    }
}

/// The position reached from `p` by applying the tokens in order.
pub open spec fn replay(p: Seq<char>, tokens: Seq<Seq<char>>) -> Seq<char>
    decreases tokens.len(),
{
    if tokens.len() == 0 {
        p
    } else {
        replay(apply_token(p, tokens[0]), tokens.drop_first())
    }
}

/// The position that a move text leads to from the starting position.
pub open spec fn position_after_moves(moves: Seq<char>) -> Seq<char> {
    replay(start_notation(), whitespace_tokens_of(moves))
}

/// Relies on `str::split_whitespace`, collected in order.
#[verifier::external_body]
fn split_tokens(s: &str) -> (r: Vec<String>)
    ensures
        r.deep_view() == whitespace_tokens_of(s@),
{
    s.split_whitespace().map(|t| t.to_string()).collect()
}

/// Replaying a concatenation is replaying its parts one after the other.
pub proof fn lemma_replay_concat(p: Seq<char>, a: Seq<Seq<char>>, b: Seq<Seq<char>>)
    ensures
        replay(p, a + b) == replay(replay(p, a), b),
    decreases a.len(),
{
    if a.len() == 0 {
        assert(a + b =~= b);
    } else {
        assert((a + b).drop_first() =~= a.drop_first() + b);
        lemma_replay_concat(apply_token(p, a[0]), a.drop_first(), b);
    }
}

/// A token that is no legal move where it stands changes nothing: replaying
/// the sequence gives what replaying it without that token gives.
pub proof fn lemma_illegal_token_skipped(
    p: Seq<char>,
    before: Seq<Seq<char>>,
    token: Seq<char>,
    after: Seq<Seq<char>>,
)
    requires
        notation_after(replay(p, before), token) is None,
    ensures
        replay(p, before + seq![token] + after) == replay(p, before + after),
{
    lemma_replay_concat(p, before + seq![token], after);
    lemma_replay_concat(p, before, seq![token]);
    lemma_replay_concat(p, before, after);
    let q = replay(p, before);
    assert(seq![token].drop_first() =~= Seq::<Seq<char>>::empty());
    assert(replay(apply_token(q, token), Seq::<Seq<char>>::empty()) == q);
    assert(replay(q, seq![token]) == q);
}

/// Applies the tokens in order to `start`, skipping those that are not legal.
pub fn replay_tokens(start: Position, tokens: &Vec<String>) -> (r: Position)
    ensures
        r@ == replay(start@, tokens.deep_view()),
{
    let mut pos = start;
    let mut i: usize = 0;
    assert(tokens.deep_view().skip(0) =~= tokens.deep_view());
    while i < tokens.len()
        invariant
            0 <= i <= tokens.len(),
            replay(start@, tokens.deep_view()) == replay(pos@, tokens.deep_view().skip(i as int)),
        decreases tokens.len() - i,
    {
        let ghost rest = tokens.deep_view().skip(i as int);
        assert(rest.drop_first() =~= tokens.deep_view().skip(i + 1));
        match pos.play(tokens[i].as_str()) {
            Some(next) => {
                pos = next;
            },
            None => {},
        }
        i = i + 1;
    }
    assert(tokens.deep_view().skip(i as int) =~= Seq::<Seq<char>>::empty());
    pos
}

/// The position that a move text leads to from the starting position.
pub fn replay_moves(moves: &str) -> (r: Position)
    ensures
        r@ == position_after_moves(moves@),
{
    let tokens = split_tokens(moves);
    replay_tokens(Position::starting(), &tokens)
}

} // verus!
