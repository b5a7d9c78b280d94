//! The search driver's decision logic: the time budget, the draw-avoiding
//! exclusion filter for move emission, the principal variation, and the
//! value conversions the driver needs. The rollout loop itself lives with
//! the caller, which owns the clock, the network and the output stream;
//! everything it decides with is computed and specified here.

use vstd::prelude::*;
use crate::moves::Move;
use crate::moves::PieceKind;
use crate::mcts::Root;
use crate::game::{legal_moves_of, fen_after, draw_declarable};
use crate::game::{legal_moves_fen, apply_move_fen, can_declare_draw_fen};

verus! {

/// A search request's time control, in milliseconds.
pub enum TimeControl {
    /// Think for exactly this long.
    MoveTime(u64),
    /// Remaining clock and increment for each side.
    TimeLeft { white_time: u64, black_time: u64, white_inc: u64, black_inc: u64 },
    /// No usable control was given.
    Unspecified,
}

/// The thinking budget in milliseconds: the exact move time when one was
/// given; a fortieth of the side's clock, capped at a minute, plus the
/// side's increment; else one minute.
pub open spec fn spec_budget(tc: TimeControl, black_to_move: bool) -> int {
    match tc {
        TimeControl::MoveTime(d) => d as int,
        TimeControl::TimeLeft { white_time, black_time, white_inc, black_inc } => {
            let t = if black_to_move { black_time as int } else { white_time as int };
            let inc = if black_to_move { black_inc as int } else { white_inc as int };
            (if t / 40 < 60000 { t / 40 } else { 60000 }) + inc
        }
        TimeControl::Unspecified => 60000,
    }
}

pub fn compute_budget(tc: &TimeControl, black_to_move: bool) -> (r: u64)
    requires
        match *tc {
            TimeControl::TimeLeft { white_inc, black_inc, .. } =>
                white_inc <= 0xFFFF_FFFF && black_inc <= 0xFFFF_FFFF,
            _ => true,
        },
    ensures
        r == spec_budget(*tc, black_to_move),
{
    match tc {
        TimeControl::MoveTime(d) => *d,
        TimeControl::TimeLeft { white_time, black_time, white_inc, black_inc } => {
            let t = if black_to_move { *black_time } else { *white_time };
            let inc = if black_to_move { *black_inc } else { *white_inc };
            let base = t / 40;
            let capped = if base < 60000 { base } else { 60000 };
            capped + inc
        }
        TimeControl::Unspecified => 60000,
    }
}

/// A mate-in-`m` score as a leaf value in milli-units: the winning side
/// approaches 1 as the mate shortens, `sign(m) * (1 - m/100)`, clamped;
/// by the sign, `m == 0` maps to 0.
pub open spec fn spec_mate_value(m: int) -> int {
    let raw = if m > 0 { 1000 - 10 * m } else if m < 0 { -1000 + 10 * (-m) } else { 0 };
    if raw > 1000 { 1000 } else if raw < -1000 { -1000 } else { raw }
}

pub fn value_from_mate(m: i64) -> (r: i64)
    requires
        -0x1000_0000 <= m <= 0x1000_0000,
    ensures
        r == spec_mate_value(m as int),
        -1000 <= r <= 1000,
{
    let raw: i64 = if m > 0 { 1000 - 10 * m } else if m < 0 { -1000 + 10 * (-m) } else { 0 };
    if raw > 1000 { 1000 } else if raw < -1000 { -1000 } else { raw }
}

/// A candidate move would allow the opponent to claim a draw: either the
/// position after it already lets them claim one, or some legal reply to
/// it does.
pub open spec fn spec_move_allows_draw(
    start: Seq<char>,
    hist: Seq<Move>,
    leaf: Seq<char>,
    m: Move,
) -> bool {
    ||| draw_declarable(start, hist.push(m))
    ||| match fen_after(leaf, m) {
            Some(f2) => exists|i: int|
                0 <= i < legal_moves_of(f2).len()
                    && draw_declarable(start, hist.push(m).push(#[trigger] legal_moves_of(f2)[i])),
            None => false,
        }
}

/// Decide `spec_move_allows_draw` by replaying the game: try the move,
/// ask for a draw claim, and try every legal reply in turn.
pub fn move_allows_draw(start_fen: &str, history: &Vec<Move>, leaf_fen: &str, m: &Move) -> (r: bool)
    requires
        m.wf(),
        forall|i: int| 0 <= i < history@.len() ==> (#[trigger] history@[i]).wf(),
    ensures
        r == spec_move_allows_draw(start_fen@, history@, leaf_fen@, *m),
{
    let mut hist2 = history.clone();
    hist2.push(*m);
    proof {
        assert(hist2@ =~= history@.push(*m));
    }
    if can_declare_draw_fen(start_fen, &hist2) {
        return true;
    }
    let f2 = match apply_move_fen(leaf_fen, m) {
        Some(f2) => f2,
        None => {
            return false;
        }
    };
    let replies = legal_moves_fen(f2.as_str());
    let n = replies.len();
    let mut i: usize = 0;
    while i < n
        invariant
            n == replies@.len(),
            replies@ == legal_moves_of(f2@),
            fen_after(leaf_fen@, *m) == Some(f2@),
            forall|k: int| 0 <= k < replies@.len() ==> (#[trigger] replies@[k]).wf(),
            hist2@ == history@.push(*m),
            forall|k: int| 0 <= k < history@.len() ==> (#[trigger] history@[k]).wf(),
            m.wf(),
            i <= n,
            forall|k: int| 0 <= k < i ==>
                !draw_declarable(start_fen@, hist2@.push(#[trigger] legal_moves_of(f2@)[k])),
        decreases n - i,
    {
        let mut hist3 = hist2.clone();
        hist3.push(replies[i]);
        proof {
            assert(hist3@ =~= hist2@.push(replies@[i as int]));
        }
        if can_declare_draw_fen(start_fen, &hist3) {
            proof {
                assert(hist3@ == history@.push(*m).push(legal_moves_of(f2@)[i as int]));
                assert(draw_declarable(start_fen@,
                    history@.push(*m).push(legal_moves_of(f2@)[i as int])));
                assert(legal_moves_of(fen_after(leaf_fen@, *m)->Some_0) == legal_moves_of(f2@));
                assert(exists|k: int|
                    0 <= k < legal_moves_of(fen_after(leaf_fen@, *m)->Some_0).len()
                        && draw_declarable(start_fen@, history@.push(*m).push(
                            #[trigger] legal_moves_of(fen_after(leaf_fen@, *m)->Some_0)[k])));
                assert(spec_move_allows_draw(start_fen@, history@, leaf_fen@, *m));
            }
            return true;
        }
        i += 1;
    }
    false
}

/// The exclusion mask for a node's candidate moves: entry `i` says the
/// `i`-th move would let the opponent claim a draw.
pub fn draw_exclusions(start_fen: &str, history: &Vec<Move>, leaf_fen: &str, moves: &Vec<Move>) -> (r: Vec<bool>)
    requires
        forall|i: int| 0 <= i < history@.len() ==> (#[trigger] history@[i]).wf(),
        forall|i: int| 0 <= i < moves@.len() ==> (#[trigger] moves@[i]).wf(),
    ensures
        r@.len() == moves@.len(),
        forall|i: int| 0 <= i < moves@.len() ==>
            #[trigger] r@[i] == spec_move_allows_draw(start_fen@, history@, leaf_fen@, moves@[i]),
{
    let mut r: Vec<bool> = Vec::new();
    let n = moves.len();
    let mut i: usize = 0;
    while i < n
        invariant
            n == moves@.len(),
            forall|k: int| 0 <= k < history@.len() ==> (#[trigger] history@[k]).wf(),
            forall|k: int| 0 <= k < moves@.len() ==> (#[trigger] moves@[k]).wf(),
            i <= n,
            r@.len() == i,
            forall|k: int| 0 <= k < i ==>
                #[trigger] r@[k] == spec_move_allows_draw(start_fen@, history@, leaf_fen@, moves@[k]),
        decreases n - i,
    {
        let ex = move_allows_draw(start_fen, history, leaf_fen, &moves[i]);
        r.push(ex);
        i += 1;
    }
    r
}

/// The exclusion mask move emission uses at node `i` of the tree, in
/// position `fen` with replay history `hist`: entry `j` marks an edge
/// whose move would let the opponent claim a draw.
pub open spec fn spec_node_exclusions(tr: Root, i: int, start: Seq<char>, hist: Seq<Move>, fen: Seq<char>) -> Seq<bool> {
    Seq::new(tr.nodes@[i].edges@.len() as nat, |j: int|
        spec_move_allows_draw(start, hist, fen, tr.nodes@[i].edges@[j].mov))
}

/// The exclusion mask at the root.
pub open spec fn spec_root_exclusions(t: Root, start: Seq<char>, hist: Seq<Move>, root_fen: Seq<char>) -> Seq<bool> {
    spec_node_exclusions(t, 0, start, hist, root_fen)
}

/// A witness that an emitted line follows the tree: `chain[t]` is the
/// node the `t`-th move was chosen at, `picks[t]` the chosen edge, and
/// `fens[t]` the position it was chosen in. Every step is the filtered
/// most-visited pick at its node under the history played so far,
/// emitted queen-normalized; each further step continues through that
/// edge's child, in the position the move leads to.
pub open spec fn spec_pv_witness(
    tr: Root,
    start: Seq<char>,
    hist0: Seq<Move>,
    root_fen: Seq<char>,
    pv: Seq<Move>,
    chain: Seq<int>,
    picks: Seq<int>,
    fens: Seq<Seq<char>>,
) -> bool {
    &&& chain.len() == pv.len()
    &&& picks.len() == pv.len()
    &&& fens.len() == pv.len()
    &&& (pv.len() > 0 ==> chain[0] == 0 && fens[0] == root_fen)
    &&& forall|t: int| 0 <= t < pv.len() ==> {
            &&& 0 <= #[trigger] chain[t] < tr.num_nodes()
            &&& 0 <= picks[t] < tr.nodes@[chain[t]].edges@.len()
            &&& tr.spec_max_n_pick(chain[t],
                    spec_node_exclusions(tr, chain[t], start, hist0 + pv.take(t), fens[t]),
                    true, picks[t])
            &&& pv[t] == spec_queened(tr.nodes@[chain[t]].edges@[picks[t]].mov)
            &&& (t + 1 < pv.len() ==> {
                    &&& tr.nodes@[chain[t]].edges@[picks[t]].child is Some
                    &&& tr.nodes@[chain[t]].edges@[picks[t]].child->Some_0 as int == chain[t + 1]
                    &&& fen_after(fens[t], pv[t]) == Some(fens[t + 1])
                })
        }
}

/// Any promotion is emitted as a queen promotion: the move coder does not
/// distinguish promotion pieces, so the emitted line must not either.
pub open spec fn spec_queened(m: Move) -> Move {
    match m.promotion {
        Some(_) => Move { promotion: Some(PieceKind::Queen), ..m },
        None => m,
    }
}

pub fn queen_normalize(m: &Move) -> (r: Move)
    ensures
        r == spec_queened(*m),
{
    match m.promotion {
        Some(_) => Move { from: m.from, to: m.to, promotion: Some(PieceKind::Queen) },
        None => *m,
    }
}

impl Root {
    /// The moves of a node's edges, in edge order.
    pub fn edge_moves(&self, i: usize) -> (r: Vec<Move>)
        requires
            self.wf(),
            (i as int) < self.num_nodes(),
        ensures
            r@.len() == self.nodes@[i as int].edges@.len(),
            forall|j: int| 0 <= j < r@.len()
                ==> #[trigger] r@[j] == self.nodes@[i as int].edges@[j].mov,
            forall|j: int| 0 <= j < r@.len() ==> (#[trigger] r@[j]).wf(),
    {
        let mut r: Vec<Move> = Vec::new();
        let n = self.nodes[i].edges.len();
        let mut j: usize = 0;
        while j < n
            invariant
                self.wf(),
                (i as int) < self.num_nodes(),
                n == self.nodes@[i as int].edges@.len(),
                j <= n,
                r@.len() == j,
                forall|k: int| 0 <= k < j
                    ==> #[trigger] r@[k] == self.nodes@[i as int].edges@[k].mov,
                forall|k: int| 0 <= k < j ==> (#[trigger] r@[k]).wf(),
            decreases n - j,
        {
            proof {
                assert(self.node_ok(i as int));
                assert(self.edge_ok(i as int, j as int));
            }
            r.push(self.nodes[i].edges[j].mov);
            j += 1;
        }
        r
    }

    /// The principal variation: from the root, repeatedly take the
    /// most-visited edge (skipping draw-allowing moves while the node is
    /// confident), emit its move queen-normalized, and follow the child
    /// until an unexpanded edge or a terminal node. The walk strictly
    /// descends the arena, and is empty exactly when the root is
    /// terminal.
    pub fn principal_variation(&self, start_fen: &str, history: &Vec<Move>, root_fen: &str)
        -> (pv: Vec<Move>)
        requires
            self.wf(),
            forall|i: int| 0 <= i < history@.len() ==> (#[trigger] history@[i]).wf(),
        ensures
            forall|k: int| 0 <= k < pv@.len() ==> (#[trigger] pv@[k]).promotion is None
                || pv@[k].promotion == Some(PieceKind::Queen),
            pv@.len() == 0 <==> self.nodes@[0].edges@.len() == 0,
            pv@.len() > 0 ==> exists|j: int| {
                &&& #[trigger] self.spec_max_n_pick(0,
                        spec_root_exclusions(*self, start_fen@, history@, root_fen@),
                        true, j)
                &&& 0 <= j < self.nodes@[0].edges@.len()
                &&& pv@[0] == spec_queened(self.nodes@[0].edges@[j].mov)
            },
            exists|chain: Seq<int>, picks: Seq<int>, fens: Seq<Seq<char>>|
                #[trigger] spec_pv_witness(*self, start_fen@, history@, root_fen@,
                    pv@, chain, picks, fens),
    {
        broadcast use vstd::string::to_string_from_display_ensures_for_str;

        let mut pv: Vec<Move> = Vec::new();
        let mut hist: Vec<Move> = history.clone();
        let mut fen: String = root_fen.to_string();
        let mut cur: usize = 0;
        let mut done = false;
        let ghost mut chain: Seq<int> = Seq::empty();
        let ghost mut picks: Seq<int> = Seq::empty();
        let ghost mut fens: Seq<Seq<char>> = Seq::empty();
        proof {
            assert(hist@ =~= history@ + pv@);
        }
        while !done
            invariant
                self.wf(),
                cur < self.num_nodes(),
                forall|i: int| 0 <= i < hist@.len() ==> (#[trigger] hist@[i]).wf(),
                forall|k: int| 0 <= k < pv@.len() ==> (#[trigger] pv@[k]).promotion is None
                    || pv@[k].promotion == Some(PieceKind::Queen),
                pv@.len() == 0 ==> cur == 0,
                hist@ == history@ + pv@,
                pv@.len() == 0 ==> fen@ == root_fen@,
                done && self.nodes@[0].edges@.len() > 0 ==> pv@.len() > 0,
                self.nodes@[0].edges@.len() == 0 ==> pv@.len() == 0,
                pv@.len() > 0 ==> exists|j: int| {
                    &&& #[trigger] self.spec_max_n_pick(0,
                            spec_root_exclusions(*self, start_fen@, history@, root_fen@),
                            true, j)
                    &&& 0 <= j < self.nodes@[0].edges@.len()
                    &&& pv@[0] == spec_queened(self.nodes@[0].edges@[j].mov)
                },
                spec_pv_witness(*self, start_fen@, history@, root_fen@, pv@, chain, picks, fens),
                !done && pv@.len() > 0 ==> {
                    &&& self.nodes@[chain[pv@.len() - 1]].edges@[picks[pv@.len() - 1]].child
                            is Some
                    &&& self.nodes@[chain[pv@.len() - 1]].edges@[picks[pv@.len() - 1]].child
                            ->Some_0 as int == cur as int
                    &&& fen_after(fens[pv@.len() - 1], pv@[pv@.len() - 1]) == Some(fen@)
                },
            decreases (if done { 0int } else { self.num_nodes() - cur + 1 }),
        {
            let moves = self.edge_moves(cur);
            let excl = draw_exclusions(start_fen, &hist, fen.as_str(), &moves);
            match self.max_n_select(cur, &excl, true) {
                None => {
                    done = true;
                }
                Some(j) => {
                    proof {
                        assert(self.node_ok(cur as int));
                        assert(self.edge_ok(cur as int, j as int));
                    }
                    let ghost was_empty = pv@.len() == 0;
                    let ghost t = pv@.len() as int;
                    let ghost pv_old = pv@;
                    let ghost fen_pre = fen@;
                    let e_mov = self.nodes[cur].edges[j].mov;
                    let best = queen_normalize(&e_mov);
                    pv.push(best);
                    hist.push(best);
                    proof {
                        let ghost chain_old = chain;
                        let ghost picks_old = picks;
                        let ghost fens_old = fens;
                        chain = chain.push(cur as int);
                        picks = picks.push(j as int);
                        fens = fens.push(fen_pre);
                        assert(hist@ =~= history@ + pv@);
                        assert(pv@.take(t) =~= pv_old);
                        assert(excl@ =~= spec_node_exclusions(*self, cur as int, start_fen@,
                            history@ + pv@.take(t), fen_pre));
                        assert(self.spec_max_n_pick(cur as int, excl@, true, j as int));
                        assert(self.spec_max_n_pick(cur as int,
                            spec_node_exclusions(*self, cur as int, start_fen@,
                                history@ + pv@.take(t), fen_pre),
                            true, j as int));
                        if was_empty {
                            assert(cur == 0);
                            assert(self.spec_max_n_pick(0,
                                spec_root_exclusions(*self, start_fen@, history@, root_fen@),
                                true, j as int));
                            assert(pv@[0] == spec_queened(self.nodes@[0].edges@[j as int].mov));
                        }
                        assert forall|t2: int| 0 <= t2 < pv@.len() implies {
                            &&& 0 <= #[trigger] chain[t2] < self.num_nodes()
                            &&& 0 <= picks[t2] < self.nodes@[chain[t2]].edges@.len()
                            &&& self.spec_max_n_pick(chain[t2],
                                    spec_node_exclusions(*self, chain[t2], start_fen@,
                                        history@ + pv@.take(t2), fens[t2]),
                                    true, picks[t2])
                            &&& pv@[t2] == spec_queened(
                                    self.nodes@[chain[t2]].edges@[picks[t2]].mov)
                            &&& (t2 + 1 < pv@.len() ==> {
                                    &&& self.nodes@[chain[t2]].edges@[picks[t2]].child is Some
                                    &&& self.nodes@[chain[t2]].edges@[picks[t2]].child
                                            ->Some_0 as int == chain[t2 + 1]
                                    &&& fen_after(fens[t2], pv@[t2]) == Some(fens[t2 + 1])
                                })
                        } by {
                            if t2 < t {
                                assert(pv@.take(t2) =~= pv_old.take(t2));
                                assert(chain[t2] == chain_old[t2]);
                                assert(picks[t2] == picks_old[t2]);
                                assert(fens[t2] == fens_old[t2]);
                                assert(pv@[t2] == pv_old[t2]);
                                if t2 + 1 < t {
                                    assert(chain[t2 + 1] == chain_old[t2 + 1]);
                                    assert(fens[t2 + 1] == fens_old[t2 + 1]);
                                }
                            }
                        }
                    }
                    match apply_move_fen(fen.as_str(), &best) {
                        Some(f2) => {
                            fen = f2;
                        }
                        None => {
                            done = true;
                        }
                    }
                    if !done {
                        match self.nodes[cur].edges[j].child {
                            Some(c) => {
                                cur = c;
                            }
                            None => {
                                done = true;
                            }
                        }
                    }
                }
            }
        }
        pv
    }

    /// The move to emit for the current search: the root's most-visited
    /// edge under the draw filter, queen-normalized; nothing exactly when
    /// the root is terminal.
    pub fn best_move(&self, start_fen: &str, history: &Vec<Move>, root_fen: &str)
        -> (r: Option<Move>)
        requires
            self.wf(),
            forall|i: int| 0 <= i < history@.len() ==> (#[trigger] history@[i]).wf(),
        ensures
            r is None <==> self.nodes@[0].edges@.len() == 0,
            match r {
                Some(m) => exists|j: int| {
                    &&& #[trigger] self.spec_max_n_pick(0,
                            spec_root_exclusions(*self, start_fen@, history@, root_fen@),
                            true, j)
                    &&& 0 <= j < self.nodes@[0].edges@.len()
                    &&& m == spec_queened(self.nodes@[0].edges@[j].mov)
                },
                None => true,
            },
    {
        let moves = self.edge_moves(0);
        let excl = draw_exclusions(start_fen, history, root_fen, &moves);
        proof {
            assert(excl@ =~= spec_root_exclusions(*self, start_fen@, history@, root_fen@));
        }
        match self.max_n_select(0, &excl, true) {
            None => None,
            Some(j) => {
                proof {
                    assert(self.node_ok(0));
                    assert(self.spec_max_n_pick(0, excl@, true, j as int));
                    assert(self.spec_max_n_pick(0,
                        spec_root_exclusions(*self, start_fen@, history@, root_fen@),
                        true, j as int));
                }
                let m = self.nodes[0].edges[j].mov;
                proof {
                    assert(self.nodes@[0].edges@[j as int].mov == m);
                }
                Some(queen_normalize(&m))
            }
        }
    }
}

} // verus!
