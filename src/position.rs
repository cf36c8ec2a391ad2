//! Board positions, and the calls into the chess engine that produce them.
//!
//! A position is held as the engine's canonical notation of its full setup:
//! piece placement (promoted pieces marked), pockets, side to move, castling
//! rights, en-passant target, remaining checks and both move clocks. The
//! notation writes every part of the setup, so two positions are the same
//! board state exactly when their notations agree.
use vstd::prelude::*;
use shakmaty::fen::Fen;
use shakmaty::san::San;
use shakmaty::{CastlingMode, Chess, EnPassantMode, Position as EnginePosition, Setup};

verus! {

/// The engine's canonical notation of the standard starting position.
pub open spec fn start_notation() -> Seq<char> {
    "rnbqkbnr/pppppppp/8/8/8/8/PPPPPPPP/RNBQKBNR w KQkq - 0 1"@
}

/// The engine's canonical notation of a board with no pieces, white to move.
pub open spec fn empty_notation() -> Seq<char> {
    "8/8/8/8/8/8/8/8 w - - 0 1"@
}

/// What the engine makes of a position text: its canonical notation, or
/// `None` where the text does not parse.
pub uninterp spec fn parsed_notation(text: Seq<char>) -> Option<Seq<char>>;

/// The canonical notation after playing a move token in standard algebraic
/// notation on the position written `notation`, or `None` where the token does
/// not parse or names no legal move there.
pub uninterp spec fn notation_after(notation: Seq<char>, token: Seq<char>) -> Option<Seq<char>>;

/// A chess position, compared structurally.
#[derive(Clone, Debug)]
pub struct Position {
    notation: String,
}

impl View for Position {
    type V = Seq<char>;

    closed spec fn view(&self) -> Seq<char> {
        self.notation@
    }
}

/// Relies on `Setup::default` and `Fen`'s display: `Fen::default()` is
/// documented as the FEN written in `start_notation`.
#[verifier::external_body]
fn engine_start() -> (r: String)
    ensures
        r@ == start_notation(),
{
    Fen::from_setup(Setup::default()).to_string()
}

/// Relies on `Setup::empty` and `Fen`'s display: `Fen::empty()`, which holds
/// that setup, is documented as the FEN written in `empty_notation`.
#[verifier::external_body]
fn engine_empty() -> (r: String)
    ensures
        r@ == empty_notation(),
{
    Fen::from_setup(Setup::empty()).to_string()
}

/// Relies on `Fen::from_str` and the notation of the parsed setup.
#[verifier::external_body]
fn engine_parse(text: &str) -> (r: Option<String>)
    ensures
        match r {
            Some(s) => parsed_notation(text@) == Some(s@),
            None => parsed_notation(text@) is None,
        },
{
    match text.parse::<Fen>() {
        Ok(fen) => Some(fen.to_string()),
        Err(_) => None,
    }
}

/// Relies on `San::from_str`, `San::to_move` and `Position::play` of the
/// engine's standard chess, on the setup that `notation` writes.
#[verifier::external_body]
fn engine_play(notation: &str, token: &str) -> (r: Option<String>)
    ensures
        match r {
            Some(s) => notation_after(notation@, token@) == Some(s@),
            None => notation_after(notation@, token@) is None,
        },
{
    let fen: Fen = notation.parse().ok()?;
    let pos: Chess = fen.into_position(CastlingMode::Standard).ok()?;
    let san: San = token.parse().ok()?;
    let m = san.to_move(&pos).ok()?;
    let next = pos.play(&m).ok()?;
    Some(Fen::from_position(next, EnPassantMode::Legal).to_string())
}

impl Position {
    /// The standard starting position.
    pub fn starting() -> (r: Position)
        ensures
            r@ == start_notation(),
    {
        Position { notation: engine_start() }
    }

    /// The board with no pieces.
    pub fn empty_board() -> (r: Position)
        ensures
            r@ == empty_notation(),
    {
        Position { notation: engine_empty() }
    }

    /// Parses a position text; `None` where the engine rejects it.
    pub fn from_fen(text: &str) -> (r: Option<Position>)
        ensures
            match r {
                Some(p) => parsed_notation(text@) == Some(p@),
                None => parsed_notation(text@) is None,
            },
    {
        match engine_parse(text) {
            Some(s) => Some(Position { notation: s }),
            None => None,
        }
    }

    /// The position after a move token; `None` where it is not a legal move here.
    pub fn play(&self, token: &str) -> (r: Option<Position>)
        ensures
            match r {
                Some(p) => notation_after(self@, token@) == Some(p@),
                None => notation_after(self@, token@) is None,
            },
    {
        match engine_play(self.notation.as_str(), token) {
            Some(s) => Some(Position { notation: s }),
            None => None,
        }
    }

    /// Structural equality of two positions.
    pub fn same_as(&self, other: &Position) -> (r: bool)
        ensures
            r == (self@ == other@),
    {
        self.notation == other.notation
    }

    /// A copy of this position.
    pub fn duplicate(&self) -> (r: Position)
        ensures
            r@ == self@,
    {
        Position { notation: self.notation.clone() }
    }

    /// The canonical notation of this position.
    pub fn to_fen(&self) -> (r: String)
        ensures
            r@ == self@,
    {
        self.notation.clone()
    }
}

} // verus!
