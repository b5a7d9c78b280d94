//! The engine's window onto the rules of chess. Positions cross this
//! boundary as FEN strings and moves as plain square indices; the chess
//! crate computes move legality, position updates and draw rules. Each
//! result that would take pages to state is given a name (an
//! uninterpreted function of the inputs alone), and the search logic is
//! verified against those names.

use vstd::prelude::*;
use std::str::FromStr;
use crate::moves::{Move, PieceKind};

verus! {

/// The legal moves of the position a FEN string denotes, in the move
/// generator's order; the empty sequence for an unparsable FEN or for one
/// giving either side more than sixteen pieces (impossible in play, and
/// kept away from the move generator's fixed buffers, see below).
pub uninterp spec fn legal_moves_of(fen: Seq<char>) -> Seq<Move>;

/// The FEN of the position after playing a move, or nothing when the FEN
/// is unparsable or oversized as above, or the move is not legal there.
pub uninterp spec fn fen_after(fen: Seq<char>, m: Move) -> Option<Seq<char>>;

/// Whether, after replaying the given moves from the given starting FEN,
/// the side to move could claim a draw (threefold repetition or the
/// fifty-move rule); false for an unparsable or oversized FEN. Moves
/// that are not legal at their turn are skipped, matching the replay
/// below.
pub uninterp spec fn draw_declarable(fen: Seq<char>, moves: Seq<Move>) -> bool;

/// Relies on chess::Board::from_str and chess::MoveGen::new_legal: the
/// legal moves of a position are a function of its FEN alone, and every
/// square index chess hands out is below 64. The generator writes into a
/// fixed 18-slot buffer with no release-mode capacity check, and the FEN
/// parser accepts positions no game can reach (say, twenty knights), so
/// boards with more than sixteen pieces on a side are turned away before
/// it runs.
#[verifier::external_body]
pub fn legal_moves_fen(fen: &str) -> (r: Vec<Move>)
    ensures
        r@ == legal_moves_of(fen@),
        forall|i: int| 0 <= i < r@.len() ==> (#[trigger] r@[i]).wf(),
{
    let b = match chess::Board::from_str(fen) {
        Ok(b) => b,
        Err(_) => return Vec::new(),
    };
    if b.color_combined(chess::Color::White).popcnt() > 16
        || b.color_combined(chess::Color::Black).popcnt() > 16 {
        return Vec::new();
    }
    chess::MoveGen::new_legal(&b)
        .map(|cm| Move::new(cm.get_source().to_index() as u8,
            cm.get_dest().to_index() as u8,
            cm.get_promotion().map(crate::game::piece_from_chess)))
        .collect()
}

/// Relies on chess::Board::legal, chess::Board::make_move_new and the
/// FEN Display of chess::Board: the position after a legal move is a
/// function of the FEN and the move alone. `make_move_new` is reached
/// only behind `legal`, and oversized boards are turned away before
/// `legal` runs the move generator (see `legal_moves_fen`).
#[verifier::external_body]
pub fn apply_move_fen(fen: &str, m: &Move) -> (r: Option<String>)
    requires
        m.wf(),
    ensures
        match r {
            Some(s) => fen_after(fen@, *m) == Some(s@),
            None => fen_after(fen@, *m) is None,
        },
{
    let b = match chess::Board::from_str(fen) {
        Ok(b) => b,
        Err(_) => return None,
    };
    if b.color_combined(chess::Color::White).popcnt() > 16
        || b.color_combined(chess::Color::Black).popcnt() > 16 { return None; }
    let cm = chess::ChessMove::new(chess::ALL_SQUARES[m.from as usize],
        chess::ALL_SQUARES[m.to as usize], m.promotion.map(crate::game::piece_to_chess));
    if b.legal(cm) { Some(b.make_move_new(cm).to_string()) } else { None }
}

/// Relies on chess::Game::new_from_fen, chess::Game::make_move and
/// chess::Game::can_declare_draw: whether a draw could be claimed after a
/// replay depends on the starting FEN and the move list alone. Moves that
/// are illegal at their turn are ignored by chess::Game::make_move.
/// Oversized boards are turned away before anything runs the move
/// generator (see `legal_moves_fen`); a replay can capture and promote
/// but never adds pieces, so the bound holds throughout it.
#[verifier::external_body]
pub fn can_declare_draw_fen(fen: &str, moves: &Vec<Move>) -> (r: bool)
    requires
        forall|i: int| 0 <= i < moves@.len() ==> (#[trigger] moves@[i]).wf(),
    ensures
        r == draw_declarable(fen@, moves@),
{
    let mut game = match chess::Game::new_from_fen(fen) {
        Some(g) => g,
        None => return false,
    };
    let b = game.current_position();
    if b.color_combined(chess::Color::White).popcnt() > 16
        || b.color_combined(chess::Color::Black).popcnt() > 16 { return false; }
    for m in moves.iter() {
        game.make_move(chess::ChessMove::new(chess::ALL_SQUARES[m.from as usize],
            chess::ALL_SQUARES[m.to as usize], m.promotion.map(crate::game::piece_to_chess)));
    }
    game.can_declare_draw()
}

/// The chess crate's piece kind, declared so that the conversion helpers
/// below may name it; opaque to the verifier.
#[verifier::external_type_specification]
#[verifier::external_body]
pub struct ExChessPiece(chess::Piece);

/// Conversion table from the library's piece kinds to the chess crate's,
/// used only inside the trusted wrappers above.
#[verifier::external_body]
pub(crate) fn piece_to_chess(p: PieceKind) -> (r: chess::Piece)
{
    match p {
        PieceKind::Pawn => chess::Piece::Pawn,
        PieceKind::Knight => chess::Piece::Knight,
        PieceKind::Bishop => chess::Piece::Bishop,
        PieceKind::Rook => chess::Piece::Rook,
        PieceKind::Queen => chess::Piece::Queen,
        PieceKind::King => chess::Piece::King,
    }
}

/// Conversion table from the chess crate's piece kinds to the library's.
#[verifier::external_body]
pub(crate) fn piece_from_chess(p: chess::Piece) -> (r: PieceKind)
{
    match p {
        chess::Piece::Pawn => PieceKind::Pawn,
        chess::Piece::Knight => PieceKind::Knight,
        chess::Piece::Bishop => PieceKind::Bishop,
        chess::Piece::Rook => PieceKind::Rook,
        chess::Piece::Queen => PieceKind::Queen,
        chess::Piece::King => PieceKind::King,
    }
}

} // verus!
