//! Deterministic encoding of chess positions and moves into the fixed
//! tensor shapes the policy/value network expects.
//!
//! A batch of positions becomes a flat vector of `0`/`1` cells laid out as
//! `[N, 16, 8, 8]`; every legal move maps to a `(plane, rank, file)` index
//! in a `[72, 8, 8]` policy space. Both are computed from the side to
//! move's point of view: the board is mirrored across the middle rank when
//! Black is to move.

use vstd::prelude::*;
use crate::moves::{Move, PieceKind};

verus! {

/// Contents of one occupied square.
#[derive(Clone, Copy, Debug, PartialEq, Eq, Structural)]
pub struct ColoredPiece {
    pub black: bool,
    pub piece: PieceKind,
}

/// The engine's own view of a chess position: exactly what the encoder
/// reads (occupancy, side to move, castling rights).
#[derive(Clone, Debug)]
pub struct Position {
    /// Rank-major square contents, 64 entries; `None` marks an empty square.
    pub squares: Vec<Option<ColoredPiece>>,
    pub black_to_move: bool,
    pub white_kingside: bool,
    pub black_kingside: bool,
    pub white_queenside: bool,
    pub black_queenside: bool,
}

impl Position {
    /// The board holds exactly 64 squares.
    pub open spec fn wf(self) -> bool {
        self.squares@.len() == 64
    }
}

/// Plane pair base of each piece kind in the position encoding: the side to
/// move's planes are the even indices, the opponent's the odd ones.
pub open spec fn spec_piece_plane(p: PieceKind) -> int {
    match p {
        PieceKind::Pawn => 0,
        PieceKind::Rook => 2,
        PieceKind::Bishop => 4,
        PieceKind::Knight => 6,
        PieceKind::Queen => 8,
        PieceKind::King => 10,
    }
}

/// Square index shown at cell `(r, f)`: mirrored across the middle rank
/// when encoding from Black's point of view.
pub open spec fn spec_cell_square(black_to_move: bool, r: int, f: int) -> int {
    if black_to_move {
        (7 - r) * 8 + f
    } else {
        r * 8 + f
    }
}

/// Value (0 or 1) of cell `(k, r, f)` of one encoded position.
pub open spec fn spec_plane_cell(pos: Position, k: int, r: int, f: int) -> int {
    if 0 <= k < 12 {
        match pos.squares@[spec_cell_square(pos.black_to_move, r, f)] {
            Some(cp) => {
                let plane = spec_piece_plane(cp.piece)
                    + if cp.black == pos.black_to_move { 0int } else { 1int };
                if plane == k { 1int } else { 0int }
            }
            None => 0int,
        }
    } else {
        let flag = if k == 12 {
            if pos.black_to_move { pos.black_kingside } else { pos.white_kingside }
        } else if k == 13 {
            if pos.black_to_move { pos.white_kingside } else { pos.black_kingside }
        } else if k == 14 {
            if pos.black_to_move { pos.black_queenside } else { pos.white_queenside }
        } else {
            if pos.black_to_move { pos.white_queenside } else { pos.black_queenside }
        };
        if flag { 1int } else { 0int }
    }
}

/// Exec mirror of `spec_piece_plane`.
pub fn piece_plane(p: PieceKind) -> (r: usize)
    ensures
        r == spec_piece_plane(p),
{
    match p {
        PieceKind::Pawn => 0,
        PieceKind::Rook => 2,
        PieceKind::Bishop => 4,
        PieceKind::Knight => 6,
        PieceKind::Queen => 8,
        PieceKind::King => 10,
    }
}

/// Rank and file of a square, after the orientation mirror.
pub fn coords(sq: u8, flip: bool) -> (rf: (usize, usize))
    requires
        sq < 64,
    ensures
        rf.0 < 8,
        rf.1 < 8,
        (rf.0 * 8 + rf.1) as int == spec_cell_square(false, spec_flip_square(sq as int, flip) / 8, spec_flip_square(sq as int, flip) % 8),
        rf.0 == spec_flip_square(sq as int, flip) / 8,
        rf.1 == spec_flip_square(sq as int, flip) % 8,
{
    let r: usize = (sq / 8) as usize;
    let f: usize = (sq % 8) as usize;
    if flip {
        (7 - r, f)
    } else {
        (r, f)
    }
}

/// Square index after the orientation mirror (rank reflected, file kept).
pub open spec fn spec_flip_square(sq: int, flip: bool) -> int {
    if flip {
        (7 - sq / 8) * 8 + sq % 8
    } else {
        sq
    }
}

/// Encode a batch of positions as flat 0/1 cells: entry
/// `i*1024 + k*64 + r*8 + f` is plane `k`, rank `r`, file `f` of board `i`,
/// exactly as `spec_plane_cell` gives it.
#[verifier::rlimit(60)]
pub fn encode_positions(boards: &Vec<Position>) -> (out: Vec<i32>)
    requires
        forall|i: int| 0 <= i < boards@.len() ==> (#[trigger] boards@[i]).wf(),
        boards@.len() * 1024 <= usize::MAX,
    ensures
        out@.len() == boards@.len() * 1024,
        forall|i: int, k: int, r: int, f: int|
            0 <= i < boards@.len() && 0 <= k < 16 && 0 <= r < 8 && 0 <= f < 8 ==>
                out@[i * 1024 + k * 64 + r * 8 + f] == spec_plane_cell(boards@[i], k, r, f),
{
    let n = boards.len();
    let mut out: Vec<i32> = Vec::new();
    let mut i: usize = 0;
    while i < n
        invariant
            n == boards@.len(),
            n * 1024 <= usize::MAX,
            forall|b: int| 0 <= b < n ==> (#[trigger] boards@[b]).wf(),
            i <= n,
            out@.len() == i * 1024,
            forall|b: int, k: int, r: int, f: int|
                0 <= b < i && 0 <= k < 16 && 0 <= r < 8 && 0 <= f < 8 ==>
                    out@[b * 1024 + k * 64 + r * 8 + f] == spec_plane_cell(boards@[b], k, r, f),
        decreases n - i,
    {
        let b = &boards[i];
        let mut k: usize = 0;
        while k < 16
            invariant
                n == boards@.len(),
                n * 1024 <= usize::MAX,
                forall|b2: int| 0 <= b2 < n ==> (#[trigger] boards@[b2]).wf(),
                i < n,
                b == boards@[i as int],
                k <= 16,
                out@.len() == i * 1024 + k * 64,
                forall|b2: int, k2: int, r: int, f: int|
                    0 <= b2 < i && 0 <= k2 < 16 && 0 <= r < 8 && 0 <= f < 8 ==>
                        out@[b2 * 1024 + k2 * 64 + r * 8 + f] == spec_plane_cell(boards@[b2], k2, r, f),
                forall|k2: int, r: int, f: int|
                    0 <= k2 < k && 0 <= r < 8 && 0 <= f < 8 ==>
                        out@[i * 1024 + k2 * 64 + r * 8 + f] == spec_plane_cell(boards@[i as int], k2, r, f),
            decreases 16 - k,
        {
            let mut r: usize = 0;
            while r < 8
                invariant
                    n == boards@.len(),
                    n * 1024 <= usize::MAX,
                    forall|b2: int| 0 <= b2 < n ==> (#[trigger] boards@[b2]).wf(),
                    i < n,
                    b == boards@[i as int],
                    k < 16,
                    r <= 8,
                    out@.len() == i * 1024 + k * 64 + r * 8,
                    forall|b2: int, k2: int, r2: int, f: int|
                        0 <= b2 < i && 0 <= k2 < 16 && 0 <= r2 < 8 && 0 <= f < 8 ==>
                            out@[b2 * 1024 + k2 * 64 + r2 * 8 + f] == spec_plane_cell(boards@[b2], k2, r2, f),
                    forall|k2: int, r2: int, f: int|
                        0 <= k2 < 16 && 0 <= r2 < 8 && 0 <= f < 8 && k2 * 64 + r2 * 8 < k * 64 + r * 8 ==>
                            out@[i * 1024 + k2 * 64 + r2 * 8 + f] == spec_plane_cell(boards@[i as int], k2, r2, f),
                decreases 8 - r,
            {
                let mut f: usize = 0;
                while f < 8
                    invariant
                        n == boards@.len(),
                        n * 1024 <= usize::MAX,
                        forall|b2: int| 0 <= b2 < n ==> (#[trigger] boards@[b2]).wf(),
                        i < n,
                        b == boards@[i as int],
                        k < 16,
                        r < 8,
                        f <= 8,
                        out@.len() == i * 1024 + k * 64 + r * 8 + f,
                        forall|b2: int, k2: int, r2: int, f2: int|
                            0 <= b2 < i && 0 <= k2 < 16 && 0 <= r2 < 8 && 0 <= f2 < 8 ==>
                                out@[b2 * 1024 + k2 * 64 + r2 * 8 + f2] == spec_plane_cell(boards@[b2], k2, r2, f2),
                        forall|k2: int, r2: int, f2: int|
                            0 <= k2 < 16 && 0 <= r2 < 8 && 0 <= f2 < 8
                                && k2 * 64 + r2 * 8 + f2 < k * 64 + r * 8 + f ==>
                                out@[i * 1024 + k2 * 64 + r2 * 8 + f2] == spec_plane_cell(boards@[i as int], k2, r2, f2),
                    decreases 8 - f,
                {
                    let cell: i32;
                    if k < 12 {
                        let sq: usize = if b.black_to_move { (7 - r) * 8 + f } else { r * 8 + f };
                        cell = match b.squares[sq] {
                            Some(cp) => {
                                let side_off: usize = if cp.black == b.black_to_move { 0 } else { 1 };
                                if piece_plane(cp.piece) + side_off == k { 1 } else { 0 }
                            }
                            None => 0,
                        };
                    } else {
                        let flag: bool = if k == 12 {
                            if b.black_to_move { b.black_kingside } else { b.white_kingside }
                        } else if k == 13 {
                            if b.black_to_move { b.white_kingside } else { b.black_kingside }
                        } else if k == 14 {
                            if b.black_to_move { b.black_queenside } else { b.white_queenside }
                        } else {
                            if b.black_to_move { b.white_queenside } else { b.black_queenside }
                        };
                        cell = if flag { 1 } else { 0 };
                    }
                    assert(cell == spec_plane_cell(boards@[i as int], k as int, r as int, f as int));
                    out.push(cell);
                    f += 1;
                }
                r += 1;
            }
            k += 1;
        }
        i += 1;
    }
    out
}

/// Policy plane of a move (orientation already applied by the caller of the
/// spec; `spec_move_idx` applies it). Follows the fixed geometry table:
/// sliding directions at bases 0, 8, 16, 24, 32, 40, 48, 56 offset by the
/// distance, knight jumps at 64..72, and 0 for any other geometry.
pub open spec fn spec_move_plane(from: int, to: int) -> int {
    let fr = from / 8;
    let ff = from % 8;
    let tr = to / 8;
    let tf = to % 8;
    let df = tf - ff;
    let dr = tr - fr;
    if dr == 0 && df > 0 {
        df
    } else if dr == 0 && df < 0 {
        8 - df
    } else if df == 0 && dr > 0 {
        16 + dr
    } else if df == 0 && dr < 0 {
        24 - dr
    } else if df == dr && df > 0 {
        32 + dr
    } else if df == dr && df < 0 {
        40 - dr
    } else if df == -dr && df > 0 {
        48 + df
    } else if df == -dr && df < 0 {
        56 - df
    } else if df == 1 && dr == 2 {
        64
    } else if df == 2 && dr == 1 {
        65
    } else if df == 2 && dr == -1 {
        66
    } else if df == 1 && dr == -2 {
        67
    } else if df == -1 && dr == 2 {
        68
    } else if df == -2 && dr == 1 {
        69
    } else if df == -2 && dr == -1 {
        70
    } else if df == -1 && dr == -2 {
        71
    } else {
        0
    }
}

/// The `(plane, rank, file)` index of a move in the `[72, 8, 8]` policy
/// space, with both squares mirrored when `flip` is set.
pub open spec fn spec_move_idx(m: Move, flip: bool) -> (int, int, int) {
    let from = spec_flip_square(m.from as int, flip);
    let to = spec_flip_square(m.to as int, flip);
    (spec_move_plane(from, to), from / 8, from % 8)
}

/// Flat index of a move in a flattened `[72, 8, 8]` policy slice.
pub open spec fn spec_move_flat_idx(m: Move, flip: bool) -> int {
    spec_move_idx(m, flip).0 * 64 + spec_move_idx(m, flip).1 * 8 + spec_move_idx(m, flip).2
}

/// Map a move to its `(plane, rank, file)` policy index. Both squares are
/// mirrored across the middle rank when `flip` is set (encoding from
/// Black's point of view); the promotion piece does not alter the index.
pub fn move_to_idx(m: Move, flip: bool) -> (r: (usize, usize, usize))
    requires
        m.wf(),
    ensures
        (r.0 as int, r.1 as int, r.2 as int) == spec_move_idx(m, flip),
        r.0 < 72,
        r.1 < 8,
        r.2 < 8,
{
    let (from_rank, from_file) = coords(m.from, flip);
    let (to_rank, to_file) = coords(m.to, flip);
    let dr: i32 = to_rank as i32 - from_rank as i32;
    let df: i32 = to_file as i32 - from_file as i32;

    let plane: usize = if dr == 0 && df > 0 {
        df as usize
    } else if dr == 0 && df < 0 {
        8 + (-df) as usize
    } else if df == 0 && dr > 0 {
        16 + dr as usize
    } else if df == 0 && dr < 0 {
        24 + (-dr) as usize
    } else if df == dr && df > 0 {
        32 + dr as usize
    } else if df == dr && df < 0 {
        40 + (-dr) as usize
    } else if df == -dr && df > 0 {
        48 + df as usize
    } else if df == -dr && df < 0 {
        56 + (-df) as usize
    } else if df == 1 && dr == 2 {
        64
    } else if df == 2 && dr == 1 {
        65
    } else if df == 2 && dr == -1 {
        66
    } else if df == 1 && dr == -2 {
        67
    } else if df == -1 && dr == 2 {
        68
    } else if df == -2 && dr == 1 {
        69
    } else if df == -2 && dr == -1 {
        70
    } else if df == -1 && dr == -2 {
        71
    } else {
        0
    };
    (plane, from_rank, from_file)
}

/// Value (0 or 1) of cell `(p, r, f)` of the legal-move mask built from the
/// first `count` moves of `moves`.
pub open spec fn spec_mask_cell_upto(moves: Seq<Move>, flip: bool, count: int, p: int, r: int, f: int) -> int {
    if exists|j: int| 0 <= j < count && #[trigger] spec_move_idx(moves[j], flip) == (p, r, f) {
        1int
    } else {
        0int
    }
}

/// Value (0 or 1) of cell `(p, r, f)` of the legal-move mask of one board.
pub open spec fn spec_mask_cell(moves: Seq<Move>, flip: bool, p: int, r: int, f: int) -> int {
    spec_mask_cell_upto(moves, flip, moves.len() as int, p, r, f)
}

/// Build the flat `[N, 72, 8, 8]` legal-move masks for a batch: entry
/// `i*4608 + p*64 + r*8 + f` is 1 exactly when some move of board `i` maps
/// to `(p, r, f)` under that board's orientation.
pub fn legal_move_masks(boards: &Vec<Position>, moves: &Vec<Vec<Move>>) -> (out: Vec<i32>)
    requires
        boards@.len() == moves@.len(),
        boards@.len() * 4608 <= usize::MAX,
        forall|i: int, j: int|
            0 <= i < moves@.len() && 0 <= j < moves@[i]@.len() ==> (#[trigger] moves@[i]@[j]).wf(),
    ensures
        out@.len() == boards@.len() * 4608,
        forall|i: int, p: int, r: int, f: int|
            0 <= i < boards@.len() && 0 <= p < 72 && 0 <= r < 8 && 0 <= f < 8 ==>
                out@[i * 4608 + p * 64 + r * 8 + f]
                    == spec_mask_cell(moves@[i]@, boards@[i].black_to_move, p, r, f),
{
    let n = boards.len();
    let total = n * 4608;
    let mut out: Vec<i32> = Vec::new();
    let mut z: usize = 0;
    while z < total
        invariant
            z <= total,
            out@.len() == z,
            forall|c: int| 0 <= c < z ==> out@[c] == 0int,
        decreases total - z,
    {
        out.push(0);
        z += 1;
    }
    let mut i: usize = 0;
    while i < n
        invariant
            n == boards@.len(),
            n == moves@.len(),
            total == n * 4608,
            n * 4608 <= usize::MAX,
            forall|b: int, j: int|
                0 <= b < moves@.len() && 0 <= j < moves@[b]@.len() ==> (#[trigger] moves@[b]@[j]).wf(),
            i <= n,
            out@.len() == total,
            forall|b: int, p: int, r: int, f: int|
                0 <= b < i && 0 <= p < 72 && 0 <= r < 8 && 0 <= f < 8 ==>
                    out@[b * 4608 + p * 64 + r * 8 + f]
                        == spec_mask_cell(moves@[b]@, boards@[b].black_to_move, p, r, f),
            forall|c: int| i * 4608 <= c < total ==> out@[c] == 0int,
        decreases n - i,
    {
        let flip = boards[i].black_to_move;
        let mvs = &moves[i];
        let m = mvs.len();
        let mut j: usize = 0;
        while j < m
            invariant
                n == boards@.len(),
                n == moves@.len(),
                total == n * 4608,
                n * 4608 <= usize::MAX,
                forall|b: int, j2: int|
                    0 <= b < moves@.len() && 0 <= j2 < moves@[b]@.len() ==> (#[trigger] moves@[b]@[j2]).wf(),
                i < n,
                flip == boards@[i as int].black_to_move,
                mvs == moves@[i as int],
                m == mvs@.len(),
                j <= m,
                out@.len() == total,
                forall|b: int, p: int, r: int, f: int|
                    0 <= b < i && 0 <= p < 72 && 0 <= r < 8 && 0 <= f < 8 ==>
                        out@[b * 4608 + p * 64 + r * 8 + f]
                            == spec_mask_cell(moves@[b]@, boards@[b].black_to_move, p, r, f),
                forall|p: int, r: int, f: int|
                    0 <= p < 72 && 0 <= r < 8 && 0 <= f < 8 ==>
                        out@[i * 4608 + p * 64 + r * 8 + f]
                            == spec_mask_cell_upto(mvs@, flip, j as int, p, r, f),
                forall|c: int| (i + 1) * 4608 <= c < total ==> out@[c] == 0int,
            decreases m - j,
        {
            let (p, r, f) = move_to_idx(mvs[j], flip);
            let idx = i * 4608 + p * 64 + r * 8 + f;
            out.set(idx, 1);
            proof {
                let ghost target = (p as int, r as int, f as int);
                assert forall|p2: int, r2: int, f2: int|
                    0 <= p2 < 72 && 0 <= r2 < 8 && 0 <= f2 < 8 implies
                        out@[i * 4608 + p2 * 64 + r2 * 8 + f2]
                            == #[trigger] spec_mask_cell_upto(mvs@, flip, j + 1, p2, r2, f2) by {
                    if (p2, r2, f2) == target {
                        assert(spec_move_idx(mvs@[j as int], flip) == (p2, r2, f2));
                        assert(spec_mask_cell_upto(mvs@, flip, j + 1, p2, r2, f2) == 1int);
                    } else {
                        assert(i * 4608 + p2 * 64 + r2 * 8 + f2 != i * 4608 + p as int * 64 + r as int * 8 + f as int);
                        assert(spec_mask_cell_upto(mvs@, flip, j + 1, p2, r2, f2)
                            == spec_mask_cell_upto(mvs@, flip, j as int, p2, r2, f2)) by {
                            if exists|q: int| 0 <= q < j + 1 && #[trigger] spec_move_idx(mvs@[q], flip) == (p2, r2, f2) {
                                let q = choose|q: int| 0 <= q < j + 1 && #[trigger] spec_move_idx(mvs@[q], flip) == (p2, r2, f2);
                                assert(q != j);
                                assert(0 <= q < j && spec_move_idx(mvs@[q], flip) == (p2, r2, f2));
                            }
                        }
                    }
                }
            }
            j += 1;
        }
        proof {
            assert(forall|p: int, r: int, f: int|
                0 <= p < 72 && 0 <= r < 8 && 0 <= f < 8 ==>
                    spec_mask_cell_upto(mvs@, flip, m as int, p, r, f)
                        == spec_mask_cell(moves@[i as int]@, boards@[i as int].black_to_move, p, r, f));
        }
        i += 1;
    }
    out
}

/// Pair each legal move with its entry of a flattened `[72*8*8]` policy
/// slice: the compute half of the network adapter.
pub fn move_priors(moves: &Vec<Move>, flip: bool, policy: &Vec<u64>) -> (r: Vec<(Move, u64)>)
    requires
        policy@.len() == 4608,
        forall|j: int| 0 <= j < moves@.len() ==> (#[trigger] moves@[j]).wf(),
    ensures
        r@.len() == moves@.len(),
        forall|j: int| 0 <= j < moves@.len() ==> (#[trigger] r@[j]).0 == moves@[j],
        forall|j: int| 0 <= j < moves@.len() ==>
            (#[trigger] r@[j]).1 == policy@[spec_move_flat_idx(moves@[j], flip)],
{
    let mut r: Vec<(Move, u64)> = Vec::new();
    let m = moves.len();
    let mut j: usize = 0;
    while j < m
        invariant
            m == moves@.len(),
            policy@.len() == 4608,
            forall|j2: int| 0 <= j2 < moves@.len() ==> (#[trigger] moves@[j2]).wf(),
            j <= m,
            r@.len() == j,
            forall|j2: int| 0 <= j2 < j ==> (#[trigger] r@[j2]).0 == moves@[j2],
            forall|j2: int| 0 <= j2 < j ==>
                (#[trigger] r@[j2]).1 == policy@[spec_move_flat_idx(moves@[j2], flip)],
        decreases m - j,
    {
        let mv = moves[j];
        let (p, rr, ff) = move_to_idx(mv, flip);
        let flat = p * 64 + rr * 8 + ff;
        r.push((mv, policy[flat]));
        j += 1;
    }
    r
}

/// Two positions are color-flipped partners: the board mirrored across the
/// middle rank with every piece's color exchanged, the side to move
/// toggled, and castling rights exchanged between the colors.
pub open spec fn is_color_flip_of(a: Position, b: Position) -> bool {
    &&& a.wf()
    &&& b.wf()
    &&& b.black_to_move == !a.black_to_move
    &&& b.white_kingside == a.black_kingside
    &&& b.black_kingside == a.white_kingside
    &&& b.white_queenside == a.black_queenside
    &&& b.black_queenside == a.white_queenside
    &&& forall|sq: int| 0 <= sq < 64 ==>
            #[trigger] b.squares@[sq] == match a.squares@[(7 - sq / 8) * 8 + sq % 8] {
                Some(cp) => Some(ColoredPiece { black: !cp.black, piece: cp.piece }),
                None => None::<ColoredPiece>,
            }
}

/// A board and its color-flipped partner encode to identical tensors: the
/// side to move's planes always occupy the lower index of each piece pair,
/// so the relabeling cancels the mirror exactly.
pub proof fn lemma_encode_flip_invariant(a: Position, b: Position)
    requires
        is_color_flip_of(a, b),
    ensures
        forall|k: int, r: int, f: int|
            0 <= k < 16 && 0 <= r < 8 && 0 <= f < 8 ==>
                spec_plane_cell(a, k, r, f) == spec_plane_cell(b, k, r, f),
{
    assert forall|k: int, r: int, f: int|
        0 <= k < 16 && 0 <= r < 8 && 0 <= f < 8 implies
            spec_plane_cell(a, k, r, f) == spec_plane_cell(b, k, r, f) by {
        if k < 12 {
            let sa = spec_cell_square(a.black_to_move, r, f);
            let sb = spec_cell_square(b.black_to_move, r, f);
            assert(0 <= sa < 64);
            assert(0 <= sb < 64);
            assert((7 - sb / 8) * 8 + sb % 8 == sa);
            assert(b.squares@[sb] == match a.squares@[sa] {
                Some(cp) => Some(ColoredPiece { black: !cp.black, piece: cp.piece }),
                None => None::<ColoredPiece>,
            });
        }
    }
}

/// Build the color-flipped partner of a position.
pub fn color_flipped(pos: &Position) -> (r: Position)
    requires
        pos.wf(),
    ensures
        is_color_flip_of(*pos, r),
{
    let mut squares: Vec<Option<ColoredPiece>> = Vec::new();
    let mut sq: usize = 0;
    while sq < 64
        invariant
            pos.wf(),
            sq <= 64,
            squares@.len() == sq,
            forall|s: int| 0 <= s < sq ==>
                #[trigger] squares@[s] == match pos.squares@[(7 - s / 8) * 8 + s % 8] {
                    Some(cp) => Some(ColoredPiece { black: !cp.black, piece: cp.piece }),
                    None => None::<ColoredPiece>,
                },
        decreases 64 - sq,
    {
        let src = (7 - sq / 8) * 8 + sq % 8;
        let cell = match pos.squares[src] {
            Some(cp) => Some(ColoredPiece { black: !cp.black, piece: cp.piece }),
            None => None,
        };
        squares.push(cell);
        sq += 1;
    }
    Position {
        squares,
        black_to_move: !pos.black_to_move,
        white_kingside: pos.black_kingside,
        black_kingside: pos.white_kingside,
        white_queenside: pos.black_queenside,
        black_queenside: pos.white_queenside,
    }
}

/// Every legal move's index lands inside the policy space, and the mask of
/// its board holds a 1 exactly at that cell.
pub proof fn lemma_mask_covers_move(moves: Seq<Move>, flip: bool, j: int)
    requires
        0 <= j < moves.len(),
        moves[j].wf(),
    ensures
        0 <= spec_move_idx(moves[j], flip).0 < 72,
        0 <= spec_move_idx(moves[j], flip).1 < 8,
        0 <= spec_move_idx(moves[j], flip).2 < 8,
        spec_mask_cell(moves, flip, spec_move_idx(moves[j], flip).0,
            spec_move_idx(moves[j], flip).1, spec_move_idx(moves[j], flip).2) == 1,
{
    let idx = spec_move_idx(moves[j], flip);
    assert(spec_move_idx(moves[j], flip) == (idx.0, idx.1, idx.2));
}

} // verus!
