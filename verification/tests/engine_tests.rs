use divine::encoding::{encode_positions, legal_move_masks, move_to_idx, move_priors, color_flipped, ColoredPiece, Position};
use divine::game::legal_moves_fen;
use divine::mcts::{isqrt, Edge, LeafEval, Node, Root, Q_SCALE};
use divine::moves::{GameStatus, Move, PieceKind};
use divine::search::{compute_budget, move_allows_draw, queen_normalize, value_from_mate, TimeControl};
use std::str::FromStr;

const STARTPOS: &str = "rnbqkbnr/pppppppp/8/8/8/8/PPPPPPPP/RNBQKBNR w KQkq - 0 1";

fn conv_piece(p: chess::Piece) -> PieceKind {
    match p {
        chess::Piece::Pawn => PieceKind::Pawn,
        chess::Piece::Knight => PieceKind::Knight,
        chess::Piece::Bishop => PieceKind::Bishop,
        chess::Piece::Rook => PieceKind::Rook,
        chess::Piece::Queen => PieceKind::Queen,
        chess::Piece::King => PieceKind::King,
    }
}

fn pos_from_board(b: &chess::Board) -> Position {
    let mut squares = Vec::new();
    for i in 0..64 {
        let sq = chess::ALL_SQUARES[i];
        let cell = b.piece_on(sq).map(|p| ColoredPiece {
            black: b.color_on(sq) == Some(chess::Color::Black),
            piece: conv_piece(p),
        });
        squares.push(cell);
    }
    Position {
        squares,
        black_to_move: b.side_to_move() == chess::Color::Black,
        white_kingside: b.castle_rights(chess::Color::White).has_kingside(),
        black_kingside: b.castle_rights(chess::Color::Black).has_kingside(),
        white_queenside: b.castle_rights(chess::Color::White).has_queenside(),
        black_queenside: b.castle_rights(chess::Color::Black).has_queenside(),
    }
}

fn mv(from: u8, to: u8) -> Move {
    Move::new(from, to, None)
}

fn to_chess(m: &Move) -> chess::ChessMove {
    chess::ChessMove::new(
        chess::ALL_SQUARES[m.from as usize],
        chess::ALL_SQUARES[m.to as usize],
        m.promotion.map(|p| match p {
            PieceKind::Pawn => chess::Piece::Pawn,
            PieceKind::Knight => chess::Piece::Knight,
            PieceKind::Bishop => chess::Piece::Bishop,
            PieceKind::Rook => chess::Piece::Rook,
            PieceKind::Queen => chess::Piece::Queen,
            PieceKind::King => chess::Piece::King,
        }),
    )
}

fn cell(enc: &[i32], board: usize, plane: usize, rank: usize, file: usize) -> i32 {
    enc[board * 1024 + plane * 64 + rank * 8 + file]
}

#[test]
fn test_encode_startpos() {
    let pos = pos_from_board(&chess::Board::default());
    let enc = encode_positions(&vec![pos]);
    assert_eq!(enc.len(), 1024);
    for f in 0..8 {
        for r in 0..8 {
            assert_eq!(cell(&enc, 0, 0, r, f), if r == 1 { 1 } else { 0 });
            assert_eq!(cell(&enc, 0, 1, r, f), if r == 6 { 1 } else { 0 });
        }
    }
    for k in 12..16 {
        for r in 0..8 {
            for f in 0..8 {
                assert_eq!(cell(&enc, 0, k, r, f), 1);
            }
        }
    }
}

#[test]
fn test_encode_black_to_move() {
    let mut pos = pos_from_board(&chess::Board::default());
    pos.black_to_move = true;
    let enc = encode_positions(&vec![pos]);
    // By the orientation rule the side to move's pawns land on rank 1 again.
    for f in 0..8 {
        for r in 0..8 {
            assert_eq!(cell(&enc, 0, 0, r, f), if r == 1 { 1 } else { 0 });
        }
    }
    for k in 12..14 {
        for r in 0..8 {
            for f in 0..8 {
                assert_eq!(cell(&enc, 0, k, r, f), 1);
            }
        }
    }
}

#[test]
fn test_encode_flip_partner() {
    let board = chess::Board::from_str("r3k3/1pp5/8/8/3P4/2N5/PP6/4K2R w Kq - 0 1").unwrap();
    let pos = pos_from_board(&board);
    let flipped = color_flipped(&pos);
    let a = encode_positions(&vec![pos]);
    let b = encode_positions(&vec![flipped]);
    assert_eq!(a, b);
}

#[test]
fn test_move_to_idx_north() {
    // e2e4: two squares north from rank 1, file 4.
    let (p, r, f) = move_to_idx(mv(12, 28), false);
    assert_eq!((p, r, f), (18, 1, 4));
}

#[test]
fn test_move_to_idx_knight() {
    // g1f3 is the (-1, +2) knight jump.
    let (p, r, f) = move_to_idx(mv(6, 21), false);
    assert_eq!((p, r, f), (68, 0, 6));
}

#[test]
fn test_move_to_idx_flipped() {
    // e7e5 from Black's point of view mirrors onto e2e4.
    let (p, r, f) = move_to_idx(mv(52, 36), true);
    assert_eq!((p, r, f), (18, 1, 4));
}

#[test]
fn test_single_move_mask() {
    let pos = pos_from_board(&chess::Board::default());
    let masks = legal_move_masks(&vec![pos], &vec![vec![mv(12, 28)]]);
    assert_eq!(masks.len(), 4608);
    let idx = 18 * 64 + 1 * 8 + 4;
    for c in 0..4608 {
        assert_eq!(masks[c], if c == idx { 1 } else { 0 });
    }
}

#[test]
fn test_startpos_mask_counts() {
    let board = chess::Board::default();
    let pos = pos_from_board(&board);
    let moves = legal_moves_fen(STARTPOS);
    assert_eq!(moves.len(), 20);
    let masks = legal_move_masks(&vec![pos], &vec![moves.clone()]);
    let ones: i32 = masks.iter().sum();
    assert_eq!(ones, 20);
    for m in moves.iter() {
        let (p, r, f) = move_to_idx(*m, false);
        assert_eq!(masks[p * 64 + r * 8 + f], 1);
    }
}

#[test]
fn test_move_priors_lookup() {
    let mut policy = vec![0u64; 4608];
    let idx = 18 * 64 + 1 * 8 + 4;
    policy[idx] = 777;
    let priors = move_priors(&vec![mv(12, 28)], false, &policy);
    assert_eq!(priors.len(), 1);
    assert_eq!(priors[0].0, mv(12, 28));
    assert_eq!(priors[0].1, 777);
}

#[test]
fn test_isqrt_values() {
    assert_eq!(isqrt(0), 0);
    assert_eq!(isqrt(1), 1);
    assert_eq!(isqrt(15), 3);
    assert_eq!(isqrt(16), 4);
    assert_eq!(isqrt(1_000_000), 1000);
}

#[test]
fn test_node_new_sorts_and_normalizes() {
    let node = Node::new(500, vec![(mv(0, 1), 250), (mv(8, 16), 750)]);
    assert_eq!(node.n, 1);
    assert_eq!(node.sum_q, 500);
    assert_eq!(node.edges.len(), 2);
    // Sorted descending, normalized to milli-units.
    assert_eq!(node.edges[0].mov, mv(8, 16));
    assert_eq!(node.edges[0].p, 750);
    assert_eq!(node.edges[1].mov, mv(0, 1));
    assert_eq!(node.edges[1].p, 250);
    assert!(node.edges.iter().all(|e| e.child.is_none() && e.virtual_losses == 0));
}

#[test]
fn test_expand_idempotent() {
    let mut e = Edge::new(mv(0, 1), 500);
    assert!(e.expand(5));
    let snapshot = (e.mov, e.p, e.child, e.virtual_losses);
    assert!(!e.expand(7));
    assert_eq!((e.mov, e.p, e.child, e.virtual_losses), snapshot);
    assert_eq!(e.child, Some(5));
}

fn root_value_milli(root: &Root) -> u64 {
    root.nodes[0].sum_q / root.nodes[0].n
}

fn uniform_priors(moves: &[Move]) -> Vec<(Move, u64)> {
    moves.iter().map(|m| (*m, 100u64)).collect()
}

fn run_one_batch(root: &mut Root, count: usize, value_milli: i64) {
    let jobs = root.select_batch(count);
    let mut evals = Vec::new();
    for job in jobs.iter() {
        // In these tests every leaf is an ongoing position whose legal
        // moves we fabricate as two fixed replies.
        let _ = job;
        evals.push(LeafEval {
            status: GameStatus::Ongoing,
            value_milli,
            priors: uniform_priors(&[mv(48, 40), mv(55, 47)]),
        });
    }
    root.apply_rollouts(&jobs, evals);
}

fn assert_tree_invariants(root: &Root) {
    for node in root.nodes.iter() {
        // No node's mean value leaves [0, 1] (milli-units).
        assert!(node.n >= 1);
        assert!(node.sum_q <= node.n * Q_SCALE);
        for e in node.edges.iter() {
            // After a full batch no virtual loss survives.
            assert_eq!(e.virtual_losses, 0);
            assert!(e.p <= Q_SCALE);
        }
    }
    // Visit balance: while no two rollouts of one batch collided on the
    // same unexpanded edge, an expanded interior node's count is one more
    // than the sum of its edges' apparent counts.
    if root.same_paths == 0 {
        for node in root.nodes.iter() {
            if !node.edges.is_empty() && node.edges.iter().any(|e| e.child.is_some()) {
                let sum: u64 = node
                    .edges
                    .iter()
                    .map(|e| e.child.map(|c| root.nodes[c].n).unwrap_or(0) + e.virtual_losses)
                    .sum();
                assert_eq!(node.n, 1 + sum);
            }
        }
    }
}

#[test]
fn test_rollout_batch_invariants() {
    let moves = [mv(12, 28), mv(11, 27), mv(6, 21)];
    let mut root = Root::new(200, uniform_priors(&moves));
    assert_eq!(root.nodes[0].sum_q, 600); // (200 + 1000) / 2
    for _ in 0..4 {
        run_one_batch(&mut root, 2, 500);
        assert_tree_invariants(&root);
    }
    assert_eq!(root.backups, 8);
    assert_eq!(root.nodes[0].n, 9);
    assert!(root.nodes.len() > 1);
}

#[test]
fn test_batch_collision_counted() {
    // A root with a single edge forces the second rollout of a batch onto
    // the edge the first one expands: exactly one collision is counted,
    // and the visit balance degrades by exactly that one.
    let mut root = Root::new(0, uniform_priors(&[mv(12, 28)]));
    let jobs = root.select_batch(2);
    assert!(jobs.iter().all(|j| j.at_edge && j.steps == vec![(0, 0)]));
    let evals: Vec<LeafEval> = (0..2)
        .map(|_| LeafEval {
            status: GameStatus::Ongoing,
            value_milli: 0,
            priors: uniform_priors(&[mv(48, 40), mv(55, 47)]),
        })
        .collect();
    root.apply_rollouts(&jobs, evals);
    assert_eq!(root.same_paths, 1);
    assert_eq!(root.depth, 1);
    assert_eq!(root.nodes[0].n, 3);
    assert_eq!(root.nodes.len(), 2);
    assert_eq!(root.nodes[1].n, 1);
    let edge_n = root.nodes[0].edges[0]
        .child
        .map(|c| root.nodes[c].n)
        .unwrap_or(0);
    assert_eq!(root.nodes[0].n, 1 + edge_n + root.same_paths as u64);
}

#[test]
fn test_depth_tracks_longest_path() {
    let mut root = Root::new(0, uniform_priors(&[mv(12, 28)]));
    run_one_batch(&mut root, 1, 0);
    assert_eq!(root.depth, 1);
    // The next rollout walks through the expanded child: two steps down,
    // stopping at one of the child's unexpanded edges.
    run_one_batch(&mut root, 1, 0);
    assert_eq!(root.depth, 2);
}

#[test]
fn test_leaf_value_stored() {
    // The expanded leaf stores exactly v/2 + 1/2, in milli-units.
    let mut root = Root::new(0, uniform_priors(&[mv(12, 28)]));
    run_one_batch(&mut root, 1, 500);
    assert_eq!(root.nodes.len(), 2);
    assert_eq!(root.nodes[1].n, 1);
    assert_eq!(root.nodes[1].sum_q, 750); // (500 + 1000) / 2
    // And the backup flipped it at the parent: 600 + (1000 - 750).
    assert_eq!(root.nodes[0].sum_q, 500 + 250);
}

#[test]
fn test_select_task_adds_virtual_loss() {
    let mut root = Root::new(0, uniform_priors(&[mv(12, 28), mv(11, 27)]));
    let jobs = root.select_batch(1);
    assert_eq!(jobs.len(), 1);
    assert_eq!(jobs[0].steps.len(), 1);
    let (ni, ei) = jobs[0].steps[0];
    assert_eq!(ni, 0);
    assert_eq!(root.nodes[0].edges[ei].virtual_losses, 1);
    assert!(jobs[0].at_edge);
    let mut evals = Vec::new();
    evals.push(LeafEval {
        status: GameStatus::Stalemate,
        value_milli: 0,
        priors: Vec::new(),
    });
    root.apply_rollouts(&jobs, evals);
    assert_eq!(root.nodes[0].edges[ei].virtual_losses, 0);
}

#[test]
fn test_terminal_root_no_moves() {
    // A mated root has no edges: nothing to select, no move to emit.
    let mut root = Root::new(-1000, Vec::new());
    assert!(root.nodes[0].edges.is_empty());
    assert!(root.best_move(STARTPOS, &Vec::new(), STARTPOS).is_none());
    let jobs = root.select_batch(1);
    assert!(!jobs[0].at_edge);
    assert!(jobs[0].steps.is_empty());
    let mut evals = Vec::new();
    evals.push(LeafEval {
        status: GameStatus::Checkmate,
        value_milli: 0,
        priors: Vec::new(),
    });
    root.apply_rollouts(&jobs, evals);
    assert_eq!(root.nodes[0].n, 2);
    assert_eq!(root.nodes.len(), 1);
}

#[test]
fn test_best_move_before_any_batch() {
    // With no rollouts at all, the prior-ordered first edge wins.
    let root = Root::new(0, vec![(mv(12, 28), 900), (mv(11, 27), 100)]);
    let best = root.best_move(STARTPOS, &Vec::new(), STARTPOS);
    assert_eq!(best, Some(mv(12, 28)));
}

#[test]
fn test_checkmated_root_has_no_moves() {
    // White to move is mated: the root is terminal, yet move emission
    // still completes (with no move to give).
    let fen = "8/8/8/8/8/4k3/4q3/4K3 w - - 0 1";
    assert!(legal_moves_fen(fen).is_empty());
    let root = Root::new(-1000, Vec::new());
    assert!(root.best_move(fen, &Vec::new(), fen).is_none());
    assert!(root.principal_variation(fen, &Vec::new(), fen).is_empty());
}

#[test]
fn test_best_move_is_legal_in_mate_in_one() {
    // Black to move mates with Qe2; any emitted move must be legal here.
    let fen = "8/8/8/8/4q3/4k3/8/4K3 b - - 0 1";
    let legal = legal_moves_fen(fen);
    assert!(!legal.is_empty());
    let mut root = Root::new(800, uniform_priors(&legal));
    run_one_batch(&mut root, 2, -500);
    let best = root.best_move(fen, &Vec::new(), fen).unwrap();
    assert!(legal.iter().any(|m| queen_normalize(m) == best));
}

#[test]
fn test_principal_variation_nonempty() {
    let mut root = Root::new(0, uniform_priors(&legal_moves_fen(STARTPOS)));
    run_one_batch(&mut root, 8, 100);
    let pv = root.principal_variation(STARTPOS, &Vec::new(), STARTPOS);
    assert!(!pv.is_empty());
    for m in pv.iter() {
        assert!(m.promotion.is_none() || m.promotion == Some(PieceKind::Queen));
    }
}

#[test]
fn test_compute_budget() {
    assert_eq!(compute_budget(&TimeControl::MoveTime(100), false), 100);
    let tc = TimeControl::TimeLeft {
        white_time: 80_000,
        black_time: 4_000_000,
        white_inc: 500,
        black_inc: 700,
    };
    assert_eq!(compute_budget(&tc, false), 80_000 / 40 + 500);
    // The per-move slice is capped at one minute.
    assert_eq!(compute_budget(&tc, true), 60_000 + 700);
    assert_eq!(compute_budget(&TimeControl::Unspecified, false), 60_000);
}

#[test]
fn test_value_from_mate() {
    assert_eq!(value_from_mate(3), 970);
    assert_eq!(value_from_mate(-2), -980);
    assert_eq!(value_from_mate(0), 0);
}

#[test]
fn test_queen_normalize() {
    let under = Move::new(48, 56, Some(PieceKind::Knight));
    assert_eq!(queen_normalize(&under).promotion, Some(PieceKind::Queen));
    let plain = mv(12, 28);
    assert_eq!(queen_normalize(&plain), plain);
}

#[test]
fn test_move_allows_draw_none_from_start() {
    assert!(!move_allows_draw(STARTPOS, &Vec::new(), STARTPOS, &mv(12, 28)));
}

#[test]
fn test_move_allows_draw_by_repetition() {
    // Two rook shuffles from each side repeat the position; the move that
    // completes the third occurrence lets the opponent claim the draw.
    let fen = "4k3/r7/8/8/8/8/R7/4K3 w - - 0 1";
    let ra2b2 = mv(8, 9);
    let ra7b7 = mv(48, 49);
    let rb2a2 = mv(9, 8);
    let rb7a7 = mv(49, 48);
    let history = vec![ra2b2, ra7b7, rb2a2, rb7a7, ra2b2, ra7b7, rb2a2];
    let mut game = chess::Game::new_from_fen(fen).unwrap();
    for m in history.iter() {
        assert!(game.make_move(to_chess(m)));
    }
    let leaf_fen = format!("{}", game.current_position());
    assert!(move_allows_draw(fen, &history, &leaf_fen, &rb7a7));
    // From the start nothing repeats: the same probe says no.
    assert!(!move_allows_draw(fen, &Vec::new(), fen, &ra2b2));
}

#[test]
fn test_oversized_fen_rejected() {
    // Seventeen white pieces: expressible in FEN, unreachable in play.
    // The wrappers turn such boards away before the move generator and
    // its fixed buffers ever see them.
    let fen = "NNNNNNNN/NNNNNNNN/8/8/8/4k3/8/4K3 w - - 0 1";
    assert!(legal_moves_fen(fen).is_empty());
    assert!(!move_allows_draw(fen, &Vec::new(), fen, &mv(0, 1)));
}

#[test]
fn test_uct_prefers_high_prior() {
    let root = Root::new(0, vec![(mv(12, 28), 900), (mv(11, 27), 100)]);
    assert_eq!(root.uct_select(0, true), Some(0));
}
