//! The Monte Carlo search tree: nodes, edges, PUCT selection, expansion,
//! virtual losses, backup and best-move extraction.
//!
//! All statistics are exact integers. Value-like quantities (priors,
//! backed-up values) live in milli-units: `Q_SCALE` stands for 1.0. The
//! tree is an arena: nodes live in one vector, an edge points to its child
//! by index, and a child's index is always greater than its parent's, so
//! every walk down the tree terminates.

use vstd::prelude::*;
use vstd::seq_lib::group_to_multiset_ensures;
use vstd::std_specs::vec::spec_vec_len;
use crate::moves::{Move, GameStatus};

verus! {

/// One full unit of value in milli-units.
pub const Q_SCALE: u64 = 1000;

/// Ceiling on the number of backups a tree may accumulate; keeps every
/// visit count far below overflow.
pub const BACKUP_CAP: u64 = 0x1_0000_0000_0000;

/// Ceiling on a single edge's virtual-loss counter.
pub const VL_CAP: u64 = 0x1000_0000;

/// Floor of the square root: the greatest `r` with `r * r <= n`.
pub open spec fn spec_isqrt(n: nat) -> nat
    decreases n,
{
    if n == 0 {
        0
    } else {
        let r = spec_isqrt((n - 1) as nat);
        if (r + 1) * (r + 1) <= n {
            r + 1
        } else {
            r
        }
    }
}

pub proof fn lemma_isqrt_bounds(n: nat)
    ensures
        spec_isqrt(n) * spec_isqrt(n) <= n,
        n < (spec_isqrt(n) + 1) * (spec_isqrt(n) + 1),
    decreases n,
{
    if n == 0 {
        assert(spec_isqrt(0) == 0);
        assert(spec_isqrt(n) * spec_isqrt(n) <= n);
        assert((spec_isqrt(n) + 1) * (spec_isqrt(n) + 1) == 1) by (nonlinear_arith)
            requires
                spec_isqrt(n) == 0,
        ;
    } else {
        lemma_isqrt_bounds((n - 1) as nat);
        let r = spec_isqrt((n - 1) as nat);
        assert(r * r <= n - 1 && n - 1 < (r + 1) * (r + 1));
        if (r + 1) * (r + 1) <= n {
            assert(spec_isqrt(n) == r + 1);
            assert(spec_isqrt(n) * spec_isqrt(n) <= n);
            assert(n < (spec_isqrt(n) + 1) * (spec_isqrt(n) + 1)) by (nonlinear_arith)
                requires
                    spec_isqrt(n) == r + 1,
                    n - 1 < (r + 1) * (r + 1),
            ;
        } else {
            assert(spec_isqrt(n) == r);
            assert(spec_isqrt(n) * spec_isqrt(n) <= n);
            assert(n < (spec_isqrt(n) + 1) * (spec_isqrt(n) + 1));
        }
    }
}

pub proof fn lemma_isqrt_unique(n: nat, r: nat)
    requires
        r * r <= n,
        n < (r + 1) * (r + 1),
    ensures
        r == spec_isqrt(n),
{
    lemma_isqrt_bounds(n);
    let s = spec_isqrt(n);
    if r < s {
        assert((r + 1) * (r + 1) <= s * s) by (nonlinear_arith)
            requires
                r + 1 <= s,
        ;
    }
    if s < r {
        assert((s + 1) * (s + 1) <= r * r) by (nonlinear_arith)
            requires
                s + 1 <= r,
        ;
    }
}

/// Floor of the square root, by bisection.
pub fn isqrt(n: u64) -> (r: u64)
    requires
        n < 0x4000_0000_0000_0000,
    ensures
        r == spec_isqrt(n as nat),
{
    let mut lo: u64 = 0;
    let mut hi: u64 = 0x8000_0000;
    while lo + 1 < hi
        invariant
            lo < hi,
            hi <= 0x8000_0000,
            lo * lo <= n,
            n < hi * hi,
        decreases hi - lo,
    {
        let mid = lo + (hi - lo) / 2;
        proof {
            assert(mid * mid <= 0x4000_0000_0000_0000) by (nonlinear_arith)
                requires
                    mid <= 0x8000_0000,
            ;
        }
        if mid * mid <= n {
            lo = mid;
        } else {
            hi = mid;
        }
    }
    proof {
        lemma_isqrt_unique(n as nat, lo as nat);
    }
    lo
}

/// An outgoing edge of a node: the move it plays, its normalized prior in
/// milli-units, the arena index of its child (absent until expansion), and
/// the in-flight virtual-loss counter.
#[derive(Clone, Copy, Debug)]
pub struct Edge {
    pub mov: Move,
    pub p: u64,
    pub child: Option<usize>,
    pub virtual_losses: u64,
}

impl Edge {
    pub fn new(mov: Move, probability: u64) -> (e: Edge)
        ensures
            e == (Edge { mov, p: probability, child: None, virtual_losses: 0 }),
    {
        Edge { mov, p: probability, child: None, virtual_losses: 0 }
    }

    pub fn has_child(&self) -> (r: bool)
        ensures
            r == (self.child is Some),
    {
        self.child.is_some()
    }

    /// One more in-flight selection passes through this edge.
    pub fn add_virtual_loss(&mut self)
        requires
            old(self).virtual_losses < VL_CAP,
        ensures
            *final(self) == (Edge { virtual_losses: (old(self).virtual_losses + 1) as u64, ..*old(self) }),
    {
        self.virtual_losses = self.virtual_losses + 1;
    }

    /// The batch this edge took part in has been backed up.
    pub fn clear_virtual_loss(&mut self)
        ensures
            *final(self) == (Edge { virtual_losses: 0, ..*old(self) }),
    {
        self.virtual_losses = 0;
    }
}

/// Sum of the raw prior weights of a probability list.
pub open spec fn sum_raw(s: Seq<(Move, u64)>) -> int
    decreases s.len(),
{
    if s.len() == 0 {
        0
    } else {
        sum_raw(s.drop_last()) + s.last().1
    }
}

pub proof fn lemma_sum_raw_nonneg(s: Seq<(Move, u64)>)
    ensures
        sum_raw(s) >= 0,
    decreases s.len(),
{
    if s.len() > 0 {
        lemma_sum_raw_nonneg(s.drop_last());
    }
}

pub proof fn lemma_sum_raw_element_bound(s: Seq<(Move, u64)>, i: int)
    requires
        0 <= i < s.len(),
    ensures
        s[i].1 <= sum_raw(s),
    decreases s.len(),
{
    lemma_sum_raw_nonneg(s.drop_last());
    if i < s.len() - 1 {
        lemma_sum_raw_element_bound(s.drop_last(), i);
    }
}

/// Descending order on raw prior weight.
pub open spec fn sorted_desc(s: Seq<(Move, u64)>) -> bool {
    forall|a: int, b: int| 0 <= a <= b < s.len() ==> (#[trigger] s[a]).1 >= (#[trigger] s[b]).1
}

/// A raw prior divided by the total, in milli-units; zero when the total
/// is zero.
pub open spec fn normalized_prior(raw: int, total: int) -> int {
    if total == 0 {
        0
    } else {
        raw * Q_SCALE / total
    }
}

/// The edges of a fresh node mirror a sorted probability list exactly.
pub open spec fn edges_match_sorted(edges: Seq<Edge>, s: Seq<(Move, u64)>, total: int) -> bool {
    &&& edges.len() == s.len()
    &&& forall|j: int| 0 <= j < s.len() ==> #[trigger] edges[j] == (Edge {
            mov: s[j].0,
            p: normalized_prior(s[j].1 as int, total) as u64,
            child: None,
            virtual_losses: 0,
        })
}

/// Sum of the normalized priors over a node's edges.
pub open spec fn edges_p_sum(edges: Seq<Edge>) -> int
    decreases edges.len(),
{
    if edges.len() == 0 {
        0
    } else {
        edges_p_sum(edges.drop_last()) + edges.last().p
    }
}

proof fn lemma_edges_p_sum_zero(edges: Seq<Edge>)
    requires
        forall|j: int| 0 <= j < edges.len() ==> (#[trigger] edges[j]).p == 0,
    ensures
        edges_p_sum(edges) == 0,
    decreases edges.len(),
{
    if edges.len() > 0 {
        lemma_edges_p_sum_zero(edges.drop_last());
    }
}

/// Flooring loses less than one unit of the total per edge: over edges
/// whose priors are `raw * Q_SCALE / total`, the weighted sum stays within
/// one `total` per edge of `Q_SCALE * sum of raws`.
proof fn lemma_edges_p_sum_bounds(edges: Seq<Edge>, s: Seq<(Move, u64)>, total: int)
    requires
        total > 0,
        edges_match_sorted(edges, s, total),
        forall|j: int| 0 <= j < s.len() ==> (#[trigger] s[j]).1 <= 0x1_0000_0000,
    ensures
        total * edges_p_sum(edges) <= Q_SCALE * sum_raw(s),
        total * edges_p_sum(edges) >= Q_SCALE * sum_raw(s) - s.len() * (total - 1),
    decreases s.len(),
{
    if s.len() == 0 {
    } else {
        let edges2 = edges.drop_last();
        let s2 = s.drop_last();
        assert(edges_match_sorted(edges2, s2, total)) by {
            assert forall|j: int| 0 <= j < s2.len() implies #[trigger] edges2[j] == (Edge {
                mov: s2[j].0,
                p: normalized_prior(s2[j].1 as int, total) as u64,
                child: None,
                virtual_losses: 0,
            }) by {
                assert(edges2[j] == edges[j]);
                assert(s2[j] == s[j]);
            }
        }
        lemma_edges_p_sum_bounds(edges2, s2, total);
        let a = s.last().1 as int * Q_SCALE;
        assert(edges.last() == edges[s.len() - 1]);
        assert(edges.last().p == normalized_prior(s.last().1 as int, total) as u64);
        assert(0 <= a / total <= a) by (nonlinear_arith)
            requires
                total > 0,
                a >= 0,
        ;
        let p = edges.last().p as int;
        assert(p == a / total);
        assert(total * p <= a && total * p >= a - (total - 1)) by (nonlinear_arith)
            requires
                p == a / total,
                total > 0,
                a >= 0,
        ;
        assert(sum_raw(s) == sum_raw(s2) + s.last().1);
        assert(edges_p_sum(edges) == edges_p_sum(edges2) + p);
        assert(total * (edges_p_sum(edges2) + p) == total * edges_p_sum(edges2) + total * p)
            by (nonlinear_arith);
        assert(s.len() * (total - 1) == s2.len() * (total - 1) + (total - 1)) by (nonlinear_arith)
            requires
                s.len() == s2.len() + 1,
        ;
    }
}

/// A node of the search tree: its visit count, the accumulated value from
/// its own side's perspective (milli-units), and one edge per legal move,
/// sorted by descending prior.
#[derive(Clone, Debug)]
pub struct Node {
    pub n: u64,
    pub sum_q: u64,
    pub edges: Vec<Edge>,
}

impl Node {
    /// Visit statistics are consistent and every edge's prior is a
    /// probability.
    pub open spec fn stats_ok(self) -> bool {
        &&& 1 <= self.n
        &&& self.sum_q <= self.n * Q_SCALE
        &&& forall|j: int| 0 <= j < self.edges@.len() ==> (#[trigger] self.edges@[j]).p <= Q_SCALE
    }

    /// Create a node from a leaf value (milli-units, this side's view) and
    /// the raw move priors: the priors are sorted descending, normalized by
    /// their sum, and the node starts with one pre-accumulated visit.
    pub fn new(new_q: u64, probabilities: Vec<(Move, u64)>) -> (node: Node)
        requires
            new_q <= Q_SCALE,
            probabilities@.len() <= 0x10000,
            forall|i: int| 0 <= i < probabilities@.len() ==> (#[trigger] probabilities@[i]).1 <= 0x1_0000_0000,
            forall|i: int| 0 <= i < probabilities@.len() ==> (#[trigger] probabilities@[i]).0.wf(),
        ensures
            node.n == 1,
            node.sum_q == new_q,
            node.edges@.len() == probabilities@.len(),
            node.stats_ok(),
            forall|j: int| 0 <= j < node.edges@.len() ==> (#[trigger] node.edges@[j]).child is None
                && node.edges@[j].virtual_losses == 0
                && node.edges@[j].mov.wf(),
            exists|s: Seq<(Move, u64)>|
                s.to_multiset() == probabilities@.to_multiset()
                && sorted_desc(s)
                && #[trigger] edges_match_sorted(node.edges@, s, sum_raw(s)),
            edges_p_sum(node.edges@) <= Q_SCALE,
            (exists|i: int| 0 <= i < probabilities@.len() && (#[trigger] probabilities@[i]).1 > 0)
                ==> Q_SCALE - probabilities@.len() < edges_p_sum(node.edges@),
    {
        broadcast use group_to_multiset_ensures;

        let ghost orig = probabilities@;
        let mut rest = probabilities;
        let mut sorted: Vec<(Move, u64)> = Vec::new();
        while rest.len() > 0
            invariant
                sorted@.to_multiset().add(rest@.to_multiset()) == orig.to_multiset(),
                sorted_desc(sorted@),
                forall|a: int, k: int|
                    0 <= a < sorted@.len() && 0 <= k < rest@.len() ==>
                        (#[trigger] sorted@[a]).1 >= (#[trigger] rest@[k]).1,
                forall|i: int| 0 <= i < sorted@.len() ==> (#[trigger] sorted@[i]).1 <= 0x1_0000_0000,
                forall|i: int| 0 <= i < rest@.len() ==> (#[trigger] rest@[i]).1 <= 0x1_0000_0000,
                forall|i: int| 0 <= i < sorted@.len() ==> (#[trigger] sorted@[i]).0.wf(),
                forall|i: int| 0 <= i < rest@.len() ==> (#[trigger] rest@[i]).0.wf(),
                sorted@.len() + rest@.len() == orig.len(),
            decreases rest@.len(),
        {
            let mut best: usize = 0;
            let mut k: usize = 1;
            while k < rest.len()
                invariant
                    best < rest@.len(),
                    k <= rest@.len(),
                    rest@.len() > 0,
                    forall|k2: int| 0 <= k2 < k ==> (#[trigger] rest@[k2]).1 <= rest@[best as int].1,
                decreases rest@.len() - k,
            {
                if rest[k].1 > rest[best].1 {
                    best = k;
                }
                k += 1;
            }
            let ghost pre_rest = rest@;
            let ghost pre_sorted = sorted@;
            let picked = rest.remove(best);
            sorted.push(picked);
            proof {
                broadcast use group_to_multiset_ensures;

                assert(pre_rest[best as int] == picked);
                assert(pre_rest.contains(picked));
                assert(sorted@ == pre_sorted.push(picked));
                assert(rest@ == pre_rest.remove(best as int));
                assert(pre_sorted.push(picked).to_multiset() =~= pre_sorted.to_multiset().insert(picked));
                assert(pre_rest.remove(best as int).to_multiset()
                    =~= pre_rest.to_multiset().remove(pre_rest[best as int]));
                assert(sorted@.to_multiset().add(rest@.to_multiset()) =~= orig.to_multiset());
            }
        }
        proof {
            assert(rest@ =~= Seq::<(Move, u64)>::empty());
            assert(rest@.to_multiset().len() == 0);
            assert(sorted@.to_multiset() =~= orig.to_multiset());
        }

        let count = sorted.len();
        let mut total: u64 = 0;
        let mut t: usize = 0;
        while t < count
            invariant
                count == sorted@.len(),
                count <= 0x10000,
                forall|i: int| 0 <= i < sorted@.len() ==> (#[trigger] sorted@[i]).1 <= 0x1_0000_0000,
                t <= count,
                total == sum_raw(sorted@.subrange(0, t as int)),
                total <= t * 0x1_0000_0000,
            decreases count - t,
        {
            proof {
                assert(sorted@.subrange(0, t + 1).drop_last() =~= sorted@.subrange(0, t as int));
                lemma_sum_raw_nonneg(sorted@.subrange(0, t as int));
            }
            total = total + sorted[t].1;
            t += 1;
        }
        proof {
            assert(sorted@.subrange(0, count as int) =~= sorted@);
        }

        let mut edges: Vec<Edge> = Vec::new();
        let mut j: usize = 0;
        while j < count
            invariant
                count == sorted@.len(),
                total == sum_raw(sorted@),
                forall|i: int| 0 <= i < sorted@.len() ==> (#[trigger] sorted@[i]).1 <= 0x1_0000_0000,
                forall|i: int| 0 <= i < sorted@.len() ==> (#[trigger] sorted@[i]).0.wf(),
                j <= count,
                edges@.len() == j,
                forall|j2: int| 0 <= j2 < j ==> #[trigger] edges@[j2] == (Edge {
                    mov: sorted@[j2].0,
                    p: normalized_prior(sorted@[j2].1 as int, total as int) as u64,
                    child: None,
                    virtual_losses: 0,
                }),
                forall|j2: int| 0 <= j2 < j ==> (#[trigger] edges@[j2]).p <= Q_SCALE,
            decreases count - j,
        {
            let raw = sorted[j].1;
            let p: u64;
            if total == 0 {
                p = 0;
            } else {
                proof {
                    lemma_sum_raw_element_bound(sorted@, j as int);
                    assert(raw * Q_SCALE / total as int <= Q_SCALE) by (nonlinear_arith)
                        requires
                            0 < total as int,
                            0 <= raw,
                            raw <= total as int,
                            Q_SCALE == 1000,
                    ;
                }
                p = raw * Q_SCALE / total;
            }
            edges.push(Edge { mov: sorted[j].0, p, child: None, virtual_losses: 0 });
            j += 1;
        }

        let node = Node { n: 1, sum_q: new_q, edges };
        proof {
            assert(edges_match_sorted(node.edges@, sorted@, sum_raw(sorted@)));
            assert(node.sum_q <= node.n * Q_SCALE);
            // The normalized priors sum to one, short of at most one
            // flooring unit per edge.
            if total > 0 {
                lemma_edges_p_sum_bounds(node.edges@, sorted@, total as int);
                let ps = edges_p_sum(node.edges@);
                assert(ps <= Q_SCALE) by (nonlinear_arith)
                    requires
                        total as int * ps <= Q_SCALE * (total as int),
                        total > 0,
                ;
            } else {
                assert forall|j: int| 0 <= j < node.edges@.len()
                    implies (#[trigger] node.edges@[j]).p == 0 by {
                    assert(node.edges@[j] == (Edge {
                        mov: sorted@[j].0,
                        p: normalized_prior(sorted@[j].1 as int, 0) as u64,
                        child: None,
                        virtual_losses: 0,
                    }));
                }
                lemma_edges_p_sum_zero(node.edges@);
            }
            // A positive raw prior anywhere forces a positive total.
            if exists|i: int| 0 <= i < orig.len() && (#[trigger] orig[i]).1 > 0 {
                let i = choose|i: int| 0 <= i < orig.len() && (#[trigger] orig[i]).1 > 0;
                assert(orig.contains(orig[i]));
                assert(orig.to_multiset().count(orig[i]) > 0);
                assert(sorted@.to_multiset().count(orig[i]) > 0);
                assert(sorted@.contains(orig[i]));
                let j = choose|j: int| 0 <= j < sorted@.len() && sorted@[j] == orig[i];
                lemma_sum_raw_element_bound(sorted@, j);
                assert(total > 0);
                let ps = edges_p_sum(node.edges@);
                let len = sorted@.len() as int;
                assert(len >= 1);
                assert(ps > Q_SCALE - len) by (nonlinear_arith)
                    requires
                        total as int * ps >= Q_SCALE * (total as int) - len * (total as int - 1),
                        total >= 1,
                        len >= 1,
                ;
            }
        }
        node
    }

    /// Mean value of this node in milli-units.
    pub fn get_q(&self) -> (r: u64)
        requires
            self.stats_ok(),
        ensures
            r == self.sum_q as int / self.n as int,
            r <= Q_SCALE,
    {
        proof {
            assert(self.sum_q as int / self.n as int <= Q_SCALE) by (nonlinear_arith)
                requires
                    1 <= self.n,
                    self.sum_q <= self.n * Q_SCALE,
            ;
        }
        self.sum_q / self.n
    }

    /// A node with no edges is terminal: no legal move leaves it.
    pub fn is_terminal(&self) -> (r: bool)
        ensures
            r == (self.edges@.len() == 0),
    {
        self.edges.len() == 0
    }
}

/// Apparent visit count of an edge: the child's count plus the in-flight
/// virtual losses, or the virtual losses alone before expansion.
pub open spec fn spec_edge_n_val(has_child: bool, child_n: int, vl: int) -> int {
    if has_child {
        child_n + vl
    } else {
        vl
    }
}

/// Apparent value of an edge from its parent's perspective, in
/// milli-units: `1 - (child.sum_q + vl) / (child.n + vl)`, or 0 before
/// expansion. Each virtual loss counts as one full lost visit.
pub open spec fn spec_edge_q_val(has_child: bool, child_n: int, child_sum_q: int, vl: int) -> int {
    if has_child {
        Q_SCALE - (child_sum_q + vl * Q_SCALE) / (child_n + vl)
    } else {
        0
    }
}

/// PUCT score in milli-units: `q + p * 1.5 * sqrt(n_parent) / (1 + n)`,
/// with the square root rounded down to an integer.
pub open spec fn spec_uct_val(p: int, q: int, n_e: int, n_p: nat) -> int {
    q + p * 3 * spec_isqrt(n_p) / (2 * (1 + n_e))
}

impl Edge {
    /// `child.n + virtual_losses` when the child exists, else the virtual
    /// losses alone. The caller passes the child's visit count, 0 when
    /// there is no child.
    pub fn get_n(&self, child_n: u64) -> (r: u64)
        requires
            self.virtual_losses <= VL_CAP,
            child_n <= 1 + BACKUP_CAP,
            self.child is None ==> child_n == 0,
        ensures
            r == spec_edge_n_val(self.child is Some, child_n as int, self.virtual_losses as int),
    {
        match self.child {
            Some(_) => child_n + self.virtual_losses,
            None => self.virtual_losses,
        }
    }

    /// The edge's value from the parent's side, with virtual losses
    /// counted as lost visits. The caller passes the child's statistics,
    /// 0 when there is no child.
    pub fn get_q(&self, child_n: u64, child_sum_q: u64) -> (r: u64)
        requires
            self.virtual_losses <= VL_CAP,
            self.child is Some ==> 1 <= child_n && child_n <= 1 + BACKUP_CAP
                && child_sum_q <= child_n * Q_SCALE,
            self.child is None ==> child_n == 0 && child_sum_q == 0,
        ensures
            r == spec_edge_q_val(self.child is Some, child_n as int, child_sum_q as int,
                self.virtual_losses as int),
            r <= Q_SCALE,
    {
        match self.child {
            Some(_) => {
                let denom = child_n + self.virtual_losses;
                let num = child_sum_q + self.virtual_losses * Q_SCALE;
                proof {
                    assert(num <= denom * Q_SCALE) by (nonlinear_arith)
                        requires
                            child_sum_q <= child_n * Q_SCALE,
                            num == child_sum_q + self.virtual_losses * Q_SCALE,
                            denom == child_n + self.virtual_losses,
                    ;
                    assert(num as int / denom as int <= Q_SCALE) by (nonlinear_arith)
                        requires
                            1 <= denom,
                            num <= denom * Q_SCALE,
                            Q_SCALE == 1000,
                    ;
                }
                Q_SCALE - num / denom
            }
            None => 0,
        }
    }

    /// Install a child node index if and only if the edge has none yet:
    /// true on fresh expansion, false on an already-expanded edge, which
    /// is left exactly as it was.
    pub fn expand(&mut self, child_idx: usize) -> (fresh: bool)
        ensures
            fresh == (old(self).child is None),
            fresh ==> *final(self) == (Edge { child: Some(child_idx), ..*old(self) }),
            !fresh ==> *final(self) == *old(self),
    {
        if self.child.is_none() {
            self.child = Some(child_idx);
            true
        } else {
            false
        }
    }
}

/// PUCT score of an edge given its parts, as `calculate_uct` computes it.
/// The `root` flag is accepted by contract but the exploration
/// coefficient is presently constant at 1.5.
pub fn calculate_uct(edge: &Edge, child_n: u64, child_sum_q: u64, n_p: u64, root: bool) -> (r: u64)
    requires
        edge.p <= Q_SCALE,
        edge.virtual_losses <= VL_CAP,
        edge.child is Some ==> 1 <= child_n && child_n <= 1 + BACKUP_CAP
            && child_sum_q <= child_n * Q_SCALE,
        edge.child is None ==> child_n == 0 && child_sum_q == 0,
        n_p <= 1 + BACKUP_CAP,
    ensures
        r == spec_uct_val(
            edge.p as int,
            spec_edge_q_val(edge.child is Some, child_n as int, child_sum_q as int,
                edge.virtual_losses as int),
            spec_edge_n_val(edge.child is Some, child_n as int, edge.virtual_losses as int),
            n_p as nat,
        ),
{
    let q = edge.get_q(child_n, child_sum_q);
    let n_c = edge.get_n(child_n);
    let s = isqrt(n_p);
    proof {
        lemma_isqrt_bounds(n_p as nat);
        assert(s <= 0x1_0000_0000) by (nonlinear_arith)
            requires
                s * s <= n_p,
                n_p < 0x4000_0000_0000_0000,
        ;
    }
    proof {
        assert(edge.p * 3 * s <= 3000 * 0x1_0000_0000) by (nonlinear_arith)
            requires
                edge.p <= 1000,
                s <= 0x1_0000_0000,
        ;
    }
    let num = edge.p * 3 * s;
    let denom = 2 * (1 + n_c);
    proof {
        assert(num / denom <= num) by (nonlinear_arith)
            requires
                denom >= 2,
                num >= 0,
        ;
    }
    let expl = num / denom;
    q + expl
}

/// The mean-value part of the PUCT score alone, the exploration term
/// weighted by zero.
pub fn calculate_uct_no_cpuct(edge: &Edge, child_n: u64, child_sum_q: u64, n_p: u64) -> (r: u64)
    requires
        edge.virtual_losses <= VL_CAP,
        edge.child is Some ==> 1 <= child_n && child_n <= 1 + BACKUP_CAP
            && child_sum_q <= child_n * Q_SCALE,
        edge.child is None ==> child_n == 0 && child_sum_q == 0,
    ensures
        r == spec_edge_q_val(edge.child is Some, child_n as int, child_sum_q as int,
            edge.virtual_losses as int),
{
    edge.get_q(child_n, child_sum_q)
}

/// The search tree. `nodes[0]` is the root position's node; every edge's
/// child index is greater than the index of the node owning it, so each
/// path strictly ascends the arena.
#[derive(Debug)]
pub struct Root {
    pub nodes: Vec<Node>,
    /// Longest node path any rollout has reached.
    pub depth: usize,
    /// Rollouts that selected an edge another rollout of the same batch
    /// had already expanded.
    pub same_paths: usize,
    /// Backups accumulated over the tree's lifetime.
    pub backups: u64,
}

impl Root {
    pub open spec fn num_nodes(self) -> int {
        self.nodes@.len() as int
    }

    pub open spec fn edge_ok(self, i: int, j: int) -> bool {
        let e = self.nodes@[i].edges@[j];
        &&& e.virtual_losses <= VL_CAP
        &&& e.mov.wf()
        &&& match e.child {
                Some(c) => i < c < self.num_nodes(),
                None => true,
            }
    }

    pub open spec fn node_ok(self, i: int) -> bool {
        let node = self.nodes@[i];
        &&& node.stats_ok()
        &&& node.n <= 1 + self.backups
        &&& forall|j: int| 0 <= j < node.edges@.len() ==> self.edge_ok(i, j)
    }

    /// No two edges anywhere share a child node.
    pub open spec fn children_distinct(self) -> bool {
        forall|i1: int, j1: int, i2: int, j2: int|
            0 <= i1 < self.num_nodes() && 0 <= j1 < self.nodes@[i1].edges@.len()
            && 0 <= i2 < self.num_nodes() && 0 <= j2 < self.nodes@[i2].edges@.len()
            && !(i1 == i2 && j1 == j2)
            && (#[trigger] self.nodes@[i1].edges@[j1]).child is Some
            && (#[trigger] self.nodes@[i2].edges@[j2]).child is Some
            ==> self.nodes@[i1].edges@[j1].child != self.nodes@[i2].edges@[j2].child
    }

    pub open spec fn wf(self) -> bool {
        &&& 1 <= self.num_nodes()
        &&& self.backups <= BACKUP_CAP
        &&& forall|i: int| 0 <= i < self.num_nodes() ==> #[trigger] self.node_ok(i)
        &&& self.children_distinct()
    }

    /// Every virtual-loss counter in the tree is zero: the state between
    /// rollout batches.
    pub open spec fn vl_clear(self) -> bool {
        forall|i: int, j: int|
            0 <= i < self.num_nodes() && 0 <= j < self.nodes@[i].edges@.len()
            ==> (#[trigger] self.nodes@[i].edges@[j]).virtual_losses == 0
    }

    pub open spec fn spec_child_n(self, i: int, j: int) -> int {
        match self.nodes@[i].edges@[j].child {
            Some(c) => self.nodes@[c as int].n as int,
            None => 0,
        }
    }

    pub open spec fn spec_child_sum_q(self, i: int, j: int) -> int {
        match self.nodes@[i].edges@[j].child {
            Some(c) => self.nodes@[c as int].sum_q as int,
            None => 0,
        }
    }

    pub open spec fn spec_edge_n(self, i: int, j: int) -> int {
        spec_edge_n_val(self.nodes@[i].edges@[j].child is Some, self.spec_child_n(i, j),
            self.nodes@[i].edges@[j].virtual_losses as int)
    }

    pub open spec fn spec_edge_q(self, i: int, j: int) -> int {
        spec_edge_q_val(self.nodes@[i].edges@[j].child is Some, self.spec_child_n(i, j),
            self.spec_child_sum_q(i, j), self.nodes@[i].edges@[j].virtual_losses as int)
    }

    pub open spec fn spec_uct_score(self, i: int, j: int) -> int {
        spec_uct_val(self.nodes@[i].edges@[j].p as int, self.spec_edge_q(i, j),
            self.spec_edge_n(i, j), self.nodes@[i].n as nat)
    }

    /// Child statistics of edge `j` of node `i`: `(n, sum_q)`, or `(0, 0)`
    /// when the edge has no child.
    fn child_stats(&self, i: usize, j: usize) -> (r: (u64, u64))
        requires
            self.wf(),
            i < self.num_nodes(),
            j < self.nodes@[i as int].edges@.len(),
        ensures
            r.0 == self.spec_child_n(i as int, j as int),
            r.1 == self.spec_child_sum_q(i as int, j as int),
            self.nodes@[i as int].edges@[j as int].child is Some ==>
                1 <= r.0 && r.0 <= 1 + BACKUP_CAP && r.1 <= r.0 * Q_SCALE,
            self.nodes@[i as int].edges@[j as int].child is None ==> r.0 == 0 && r.1 == 0,
    {
        proof {
            assert(self.node_ok(i as int));
            assert(self.edge_ok(i as int, j as int));
        }
        match self.nodes[i].edges[j].child {
            Some(c) => {
                proof {
                    assert(self.node_ok(self.nodes@[i as int].edges@[j as int].child->Some_0 as int));
                }
                (self.nodes[c].n, self.nodes[c].sum_q)
            }
            None => (0, 0),
        }
    }

    /// First edge of node `i` attaining the maximal PUCT score; `None`
    /// exactly when the node is terminal. The `root` flag is forwarded to
    /// the score and presently has no effect.
    pub fn uct_select(&self, i: usize, root: bool) -> (r: Option<usize>)
        requires
            self.wf(),
            i < self.num_nodes(),
        ensures
            match r {
                None => self.nodes@[i as int].edges@.len() == 0,
                Some(j) => {
                    &&& (j as int) < self.nodes@[i as int].edges@.len()
                    &&& forall|k: int| 0 <= k < self.nodes@[i as int].edges@.len()
                            ==> #[trigger] self.spec_uct_score(i as int, k)
                                <= self.spec_uct_score(i as int, j as int)
                    &&& forall|k: int| 0 <= k < j
                            ==> #[trigger] self.spec_uct_score(i as int, k)
                                < self.spec_uct_score(i as int, j as int)
                },
            },
    {
        proof {
            assert(self.node_ok(i as int));
        }
        let len = self.nodes[i].edges.len();
        if len == 0 {
            return None;
        }
        let n_p = self.nodes[i].n;
        let (cn0, cs0) = self.child_stats(i, 0);
        let mut best: usize = 0;
        let mut best_score: u64;
        {
            proof {
                assert(self.edge_ok(i as int, 0));
            }
            best_score = calculate_uct(&self.nodes[i].edges[0], cn0, cs0, n_p, root);
        }
        let mut j: usize = 1;
        while j < len
            invariant
                self.wf(),
                i < self.num_nodes(),
                len == self.nodes@[i as int].edges@.len(),
                n_p == self.nodes@[i as int].n,
                best < j,
                j <= len,
                best_score == self.spec_uct_score(i as int, best as int),
                forall|k: int| 0 <= k < j
                    ==> #[trigger] self.spec_uct_score(i as int, k)
                        <= self.spec_uct_score(i as int, best as int),
                forall|k: int| 0 <= k < best
                    ==> #[trigger] self.spec_uct_score(i as int, k)
                        < self.spec_uct_score(i as int, best as int),
            decreases len - j,
        {
            proof {
                assert(self.node_ok(i as int));
                assert(self.edge_ok(i as int, j as int));
            }
            let (cn, cs) = self.child_stats(i, j);
            let score = calculate_uct(&self.nodes[i].edges[j], cn, cs, n_p, root);
            if best_score < score {
                best = j;
                best_score = score;
            }
            j += 1;
        }
        Some(best)
    }

    /// The draw filter is live when asked for and the node believes it is
    /// not losing: its mean value is at least one half.
    pub open spec fn spec_draw_filter_active(self, i: int, detect_draw: bool) -> bool {
        detect_draw && 2 * self.nodes@[i].sum_q >= self.nodes@[i].n * Q_SCALE
    }

    /// Edge `j` may be picked when the filter is off or it is not excluded.
    pub open spec fn spec_eligible(self, i: int, excluded: Seq<bool>, use_filter: bool, j: int) -> bool {
        0 <= j < self.nodes@[i].edges@.len() && (use_filter ==> !excluded[j])
    }

    /// First eligible edge of node `i` with the maximal apparent visit
    /// count; `None` exactly when no edge is eligible.
    fn max_n_index(&self, i: usize, excluded: &Vec<bool>, use_filter: bool) -> (r: Option<usize>)
        requires
            self.wf(),
            i < self.num_nodes(),
            excluded@.len() == self.nodes@[i as int].edges@.len(),
        ensures
            match r {
                None => forall|j: int| !self.spec_eligible(i as int, excluded@, use_filter, j),
                Some(j) => {
                    &&& self.spec_eligible(i as int, excluded@, use_filter, j as int)
                    &&& forall|k: int| self.spec_eligible(i as int, excluded@, use_filter, k)
                            ==> #[trigger] self.spec_edge_n(i as int, k)
                                <= self.spec_edge_n(i as int, j as int)
                    &&& forall|k: int| 0 <= k < j && self.spec_eligible(i as int, excluded@, use_filter, k)
                            ==> #[trigger] self.spec_edge_n(i as int, k)
                                < self.spec_edge_n(i as int, j as int)
                },
            },
    {
        proof {
            assert(self.node_ok(i as int));
        }
        let len = self.nodes[i].edges.len();
        let mut best: Option<usize> = None;
        let mut best_n: u64 = 0;
        let mut j: usize = 0;
        while j < len
            invariant
                self.wf(),
                i < self.num_nodes(),
                len == self.nodes@[i as int].edges@.len(),
                excluded@.len() == len,
                j <= len,
                match best {
                    None => {
                        &&& best_n == 0
                        &&& forall|k: int| 0 <= k < j
                                ==> !self.spec_eligible(i as int, excluded@, use_filter, k)
                    },
                    Some(b) => {
                        &&& (b as int) < j
                        &&& self.spec_eligible(i as int, excluded@, use_filter, b as int)
                        &&& best_n == self.spec_edge_n(i as int, b as int)
                        &&& forall|k: int| 0 <= k < j
                                && self.spec_eligible(i as int, excluded@, use_filter, k)
                                ==> #[trigger] self.spec_edge_n(i as int, k)
                                    <= self.spec_edge_n(i as int, b as int)
                        &&& forall|k: int| 0 <= k < b
                                && self.spec_eligible(i as int, excluded@, use_filter, k)
                                ==> #[trigger] self.spec_edge_n(i as int, k)
                                    < self.spec_edge_n(i as int, b as int)
                    },
                },
            decreases len - j,
        {
            proof {
                assert(self.node_ok(i as int));
                assert(self.edge_ok(i as int, j as int));
            }
            if !(use_filter && excluded[j]) {
                let (cn, _cs) = self.child_stats(i, j);
                let n_e = self.nodes[i].edges[j].get_n(cn);
                match best {
                    None => {
                        best = Some(j);
                        best_n = n_e;
                    }
                    Some(_) => {
                        if best_n < n_e {
                            best = Some(j);
                            best_n = n_e;
                        }
                    }
                }
            }
            j += 1;
        }
        best
    }

    /// `j` is what most-visited selection picks at node `i` under the
    /// exclusion mask: the first most-visited eligible edge while the
    /// draw filter bites and anything at all is eligible, else the first
    /// most-visited edge overall.
    pub open spec fn spec_max_n_pick(self, i: int, excl: Seq<bool>, detect_draw: bool, j: int) -> bool {
        if self.spec_draw_filter_active(i, detect_draw)
            && (exists|k: int| self.spec_eligible(i, excl, true, k)) {
            &&& self.spec_eligible(i, excl, true, j)
            &&& forall|k: int| self.spec_eligible(i, excl, true, k)
                    ==> #[trigger] self.spec_edge_n(i, k) <= self.spec_edge_n(i, j)
            &&& forall|k: int| 0 <= k < j && self.spec_eligible(i, excl, true, k)
                    ==> #[trigger] self.spec_edge_n(i, k) < self.spec_edge_n(i, j)
        } else {
            &&& 0 <= j < self.nodes@[i].edges@.len()
            &&& forall|k: int| 0 <= k < self.nodes@[i].edges@.len()
                    ==> #[trigger] self.spec_edge_n(i, k) <= self.spec_edge_n(i, j)
            &&& forall|k: int| 0 <= k < j
                    ==> #[trigger] self.spec_edge_n(i, k) < self.spec_edge_n(i, j)
        }
    }

    /// The most-visited edge of node `i`, for move emission. When
    /// `detect_draw` is set and the node's value is at least one half,
    /// edges marked in `excluded` (moves that would let the opponent
    /// declare a draw) are skipped; if that eliminates every candidate the
    /// filter is dropped and the choice repeats. `None` exactly when the
    /// node is terminal.
    pub fn max_n_select(&self, i: usize, excluded: &Vec<bool>, detect_draw: bool) -> (r: Option<usize>)
        requires
            self.wf(),
            i < self.num_nodes(),
            excluded@.len() == self.nodes@[i as int].edges@.len(),
        ensures
            r is None <==> self.nodes@[i as int].edges@.len() == 0,
            match r {
                Some(j) => self.spec_max_n_pick(i as int, excluded@, detect_draw, j as int),
                None => true,
            },
            (self.spec_draw_filter_active(i as int, detect_draw)
                && exists|k: int| self.spec_eligible(i as int, excluded@, true, k)) ==>
                match r {
                    Some(j) => {
                        &&& self.spec_eligible(i as int, excluded@, true, j as int)
                        &&& forall|k: int| self.spec_eligible(i as int, excluded@, true, k)
                                ==> #[trigger] self.spec_edge_n(i as int, k)
                                    <= self.spec_edge_n(i as int, j as int)
                        &&& forall|k: int| 0 <= k < j && self.spec_eligible(i as int, excluded@, true, k)
                                ==> #[trigger] self.spec_edge_n(i as int, k)
                                    < self.spec_edge_n(i as int, j as int)
                    },
                    None => false,
                },
            !(self.spec_draw_filter_active(i as int, detect_draw)
                && exists|k: int| self.spec_eligible(i as int, excluded@, true, k)) ==>
                match r {
                    Some(j) => {
                        &&& (j as int) < self.nodes@[i as int].edges@.len()
                        &&& forall|k: int| 0 <= k < self.nodes@[i as int].edges@.len()
                                ==> #[trigger] self.spec_edge_n(i as int, k)
                                    <= self.spec_edge_n(i as int, j as int)
                        &&& forall|k: int| 0 <= k < j
                                ==> #[trigger] self.spec_edge_n(i as int, k)
                                    < self.spec_edge_n(i as int, j as int)
                    },
                    None => self.nodes@[i as int].edges@.len() == 0,
                },
    {
        proof {
            assert(self.node_ok(i as int));
        }
        let node_n = self.nodes[i].n;
        let node_sum_q = self.nodes[i].sum_q;
        let active = detect_draw && 2 * node_sum_q >= node_n * Q_SCALE;
        let r = if active {
            match self.max_n_index(i, excluded, true) {
                Some(j) => Some(j),
                None => self.max_n_index(i, excluded, false),
            }
        } else {
            self.max_n_index(i, excluded, false)
        };
        proof {
            if r is None {
                assert(!self.spec_eligible(i as int, excluded@, false, 0));
            }
        }
        r
    }

    /// Changing visit statistics alone, while they stay consistent with
    /// the backup count, preserves well-formedness.
    pub proof fn lemma_wf_new_stats(a: Root, b: Root)
        requires
            a.wf(),
            b.nodes@.len() == a.nodes@.len(),
            b.backups <= BACKUP_CAP,
            forall|i: int| 0 <= i < a.num_nodes()
                ==> (#[trigger] b.nodes@[i]).edges@ == a.nodes@[i].edges@,
            forall|i: int| 0 <= i < a.num_nodes() ==> {
                &&& 1 <= (#[trigger] b.nodes@[i]).n
                &&& b.nodes@[i].n <= 1 + b.backups
                &&& b.nodes@[i].sum_q <= b.nodes@[i].n * Q_SCALE
            },
        ensures
            b.wf(),
    {
        assert forall|i: int| 0 <= i < b.num_nodes() implies #[trigger] b.node_ok(i) by {
            assert(a.node_ok(i));
            assert(b.nodes@[i].edges@ == a.nodes@[i].edges@);
            assert forall|j: int| 0 <= j < b.nodes@[i].edges@.len() implies b.edge_ok(i, j)
                && (#[trigger] b.nodes@[i].edges@[j]).p <= Q_SCALE by {
                assert(a.edge_ok(i, j));
                assert(b.nodes@[i].edges@[j] == a.nodes@[i].edges@[j]);
            }
        }
        assert forall|i1: int, j1: int, i2: int, j2: int|
            0 <= i1 < b.num_nodes() && 0 <= j1 < b.nodes@[i1].edges@.len()
            && 0 <= i2 < b.num_nodes() && 0 <= j2 < b.nodes@[i2].edges@.len()
            && !(i1 == i2 && j1 == j2)
            && (#[trigger] b.nodes@[i1].edges@[j1]).child is Some
            && (#[trigger] b.nodes@[i2].edges@[j2]).child is Some
            implies b.nodes@[i1].edges@[j1].child != b.nodes@[i2].edges@[j2].child by {
            assert(b.nodes@[i1].edges@[j1] == a.nodes@[i1].edges@[j1]);
            assert(b.nodes@[i2].edges@[j2] == a.nodes@[i2].edges@[j2]);
        }
    }

    /// Bookkeeping fields and a larger backup budget never disturb
    /// well-formedness while the nodes stay exactly as they were.
    pub proof fn lemma_wf_more_backups(a: Root, b: Root)
        requires
            a.wf(),
            b.nodes@ == a.nodes@,
            a.backups <= b.backups,
            b.backups <= BACKUP_CAP,
        ensures
            b.wf(),
    {
        assert forall|i: int| 0 <= i < b.num_nodes() implies #[trigger] b.node_ok(i) by {
            assert(a.node_ok(i));
            assert(b.nodes@[i] == a.nodes@[i]);
            assert forall|j: int| 0 <= j < b.nodes@[i].edges@.len() implies b.edge_ok(i, j) by {
                assert(a.edge_ok(i, j));
            }
        }
        assert forall|i1: int, j1: int, i2: int, j2: int|
            0 <= i1 < b.num_nodes() && 0 <= j1 < b.nodes@[i1].edges@.len()
            && 0 <= i2 < b.num_nodes() && 0 <= j2 < b.nodes@[i2].edges@.len()
            && !(i1 == i2 && j1 == j2)
            && (#[trigger] b.nodes@[i1].edges@[j1]).child is Some
            && (#[trigger] b.nodes@[i2].edges@[j2]).child is Some
            implies b.nodes@[i1].edges@[j1].child != b.nodes@[i2].edges@[j2].child by {
            assert(b.nodes@[i1] == a.nodes@[i1]);
            assert(b.nodes@[i2] == a.nodes@[i2]);
        }
    }

    /// Record one backup visit at node `i`: one more visit and `add_q`
    /// more accumulated value. The caller has already counted the backup
    /// in `backups`.
    fn bump_stats(&mut self, i: usize, add_q: u64)
        requires
            old(self).wf(),
            (i as int) < old(self).num_nodes(),
            add_q <= Q_SCALE,
            old(self).nodes@[i as int].n + 1 <= 1 + old(self).backups,
        ensures
            final(self).wf(),
            final(self).nodes@.len() == old(self).nodes@.len(),
            final(self).depth == old(self).depth,
            final(self).same_paths == old(self).same_paths,
            final(self).backups == old(self).backups,
            final(self).nodes@[i as int].n == old(self).nodes@[i as int].n + 1,
            final(self).nodes@[i as int].sum_q == old(self).nodes@[i as int].sum_q + add_q,
            final(self).nodes@[i as int].edges@ == old(self).nodes@[i as int].edges@,
            forall|i2: int| 0 <= i2 < old(self).num_nodes() && i2 != i
                ==> #[trigger] final(self).nodes@[i2] == old(self).nodes@[i2],
    {
        proof {
            assert(old(self).node_ok(i as int));
            assert(old(self).backups <= BACKUP_CAP);
            let n0 = old(self).nodes@[i as int].n;
            assert(n0 * Q_SCALE <= (1 + BACKUP_CAP) * Q_SCALE) by (nonlinear_arith)
                requires
                    n0 <= 1 + BACKUP_CAP,
                    Q_SCALE == 1000,
            ;
        }
        let n = self.nodes[i].n;
        let s = self.nodes[i].sum_q;
        proof {
            assert(s + add_q <= (n + 1) * Q_SCALE) by (nonlinear_arith)
                requires
                    s <= n * Q_SCALE,
                    add_q <= Q_SCALE,
            ;
        }
        self.nodes[i].n = n + 1;
        self.nodes[i].sum_q = s + add_q;
        proof {
            assert forall|i2: int| 0 <= i2 < old(self).num_nodes() implies {
                &&& 1 <= (#[trigger] self.nodes@[i2]).n
                &&& self.nodes@[i2].n <= 1 + self.backups
                &&& self.nodes@[i2].sum_q <= self.nodes@[i2].n * Q_SCALE
            } by {
                assert(old(self).node_ok(i2));
            }
            Self::lemma_wf_new_stats(*old(self), *self);
        }
    }

    /// Give edge `(i, j)` a child built from the leaf value and priors,
    /// if it has none yet; the new node is appended to the arena. True
    /// exactly on fresh expansion; an already-expanded edge leaves the
    /// whole tree untouched.
    fn attach_child(&mut self, i: usize, j: usize, q_leaf: u64, priors: Vec<(Move, u64)>) -> (fresh: bool)
        requires
            old(self).wf(),
            (i as int) < old(self).num_nodes(),
            (j as int) < old(self).nodes@[i as int].edges@.len(),
            q_leaf <= Q_SCALE,
            priors@.len() <= 0x10000,
            forall|k: int| 0 <= k < priors@.len() ==> (#[trigger] priors@[k]).1 <= 0x1_0000_0000,
            forall|k: int| 0 <= k < priors@.len() ==> (#[trigger] priors@[k]).0.wf(),
        ensures
            final(self).wf(),
            tree_extends(*old(self), *final(self)),
            fresh == (old(self).nodes@[i as int].edges@[j as int].child is None),
            final(self).depth == old(self).depth,
            final(self).same_paths == old(self).same_paths,
            final(self).backups == old(self).backups,
            !fresh ==> *final(self) == *old(self),
            fresh ==> {
                let newi = old(self).num_nodes();
                &&& final(self).nodes@.len() == old(self).nodes@.len() + 1
                &&& final(self).nodes@[newi].n == 1
                &&& final(self).nodes@[newi].sum_q == q_leaf
                &&& final(self).nodes@[newi].edges@.len() == priors@.len()
                &&& exists|s: Seq<(Move, u64)>|
                        s.to_multiset() == priors@.to_multiset()
                        && sorted_desc(s)
                        && #[trigger] edges_match_sorted(final(self).nodes@[newi].edges@, s, sum_raw(s))
                &&& forall|x: int| 0 <= x < final(self).nodes@[newi].edges@.len() ==>
                        (#[trigger] final(self).nodes@[newi].edges@[x]).child is None
                        && final(self).nodes@[newi].edges@[x].virtual_losses == 0
                &&& final(self).nodes@[i as int].edges@ == old(self).nodes@[i as int].edges@
                        .update(j as int, (Edge {
                            child: Some(old(self).nodes@.len() as usize),
                            ..old(self).nodes@[i as int].edges@[j as int]
                        }))
                &&& final(self).nodes@[i as int].n == old(self).nodes@[i as int].n
                &&& final(self).nodes@[i as int].sum_q == old(self).nodes@[i as int].sum_q
                &&& forall|i2: int| 0 <= i2 < old(self).num_nodes() && i2 != i
                        ==> #[trigger] final(self).nodes@[i2] == old(self).nodes@[i2]
            },
    {
        proof {
            assert(old(self).node_ok(i as int));
            assert(old(self).edge_ok(i as int, j as int));
        }
        let e = self.nodes[i].edges[j];
        if e.child.is_some() {
            return false;
        }
        let idx = self.nodes.len();
        let child = Node::new(q_leaf, priors);
        self.nodes.push(child);
        let mut e2 = e;
        e2.child = Some(idx);
        self.nodes[i].edges.set(j, e2);
        proof {
            let t1 = *self;
            let t0 = *old(self);
            assert forall|x: int| 0 <= x < t1.num_nodes() implies #[trigger] t1.node_ok(x) by {
                if x < t0.num_nodes() {
                    assert(t0.node_ok(x));
                    assert forall|y: int| 0 <= y < t1.nodes@[x].edges@.len()
                        implies t1.edge_ok(x, y)
                        && (#[trigger] t1.nodes@[x].edges@[y]).p <= Q_SCALE by {
                        assert(t0.edge_ok(x, y));
                        if x == i as int && y == j as int {
                            assert(t1.nodes@[x].edges@[y].child == Some(idx));
                        } else {
                            assert(t1.nodes@[x].edges@[y] == t0.nodes@[x].edges@[y]);
                        }
                    }
                } else {
                    assert(x == t0.num_nodes());
                }
            }
            assert forall|i1: int, j1: int, i2: int, j2: int|
                0 <= i1 < t1.num_nodes() && 0 <= j1 < t1.nodes@[i1].edges@.len()
                && 0 <= i2 < t1.num_nodes() && 0 <= j2 < t1.nodes@[i2].edges@.len()
                && !(i1 == i2 && j1 == j2)
                && (#[trigger] t1.nodes@[i1].edges@[j1]).child is Some
                && (#[trigger] t1.nodes@[i2].edges@[j2]).child is Some
                implies t1.nodes@[i1].edges@[j1].child != t1.nodes@[i2].edges@[j2].child by {
                if i1 < t0.num_nodes() && i2 < t0.num_nodes() {
                    let c1 = t1.nodes@[i1].edges@[j1].child;
                    let c2 = t1.nodes@[i2].edges@[j2].child;
                    if i1 == i as int && j1 == j as int {
                        assert(c1 == Some(idx));
                        assert(t1.nodes@[i2].edges@[j2] == t0.nodes@[i2].edges@[j2]);
                        assert(t0.node_ok(i2));
                        assert(t0.edge_ok(i2, j2));
                    } else if i2 == i as int && j2 == j as int {
                        assert(c2 == Some(idx));
                        assert(t1.nodes@[i1].edges@[j1] == t0.nodes@[i1].edges@[j1]);
                        assert(t0.node_ok(i1));
                        assert(t0.edge_ok(i1, j1));
                    } else {
                        assert(c1 == t0.nodes@[i1].edges@[j1].child);
                        assert(c2 == t0.nodes@[i2].edges@[j2].child);
                    }
                } else {
                    // a new node's edges carry no children
                }
            }
        }
        true
    }

    /// One descent from the root: at each node pick the PUCT-best edge,
    /// add a virtual loss to it, and follow it into its child, stopping at
    /// an unexpanded edge or at a terminal node. The scores obeyed are
    /// those of the tree at entry: a descent never revisits a node, so the
    /// virtual losses it adds on the way down never touch a score it still
    /// reads.
    pub fn select_task(&mut self) -> (job: Job)
        requires
            old(self).wf(),
            old(self).vl_below(VL_CAP as int),
        ensures
            final(self).wf(),
            Self::same_but_vl(*old(self), *final(self)),
            job.job_wf(*final(self)),
            job.steps@.len() <= final(self).num_nodes(),
            job.at_edge ==> final(self).nodes@[job.spec_last_step().0 as int]
                .edges@[job.spec_last_step().1 as int].child is None,
            forall|i: int, j: int|
                0 <= i < old(self).num_nodes() && 0 <= j < old(self).nodes@[i].edges@.len()
                    ==> (#[trigger] final(self).nodes@[i].edges@[j]).virtual_losses as int
                        == old(self).nodes@[i].edges@[j].virtual_losses as int
                            + (if job.has_step(i, j) { 1int } else { 0int }),
            forall|k: int| 0 <= k < job.steps@.len() ==> #[trigger] job.moves@[k]
                == old(self).nodes@[job.steps@[k].0 as int].edges@[job.steps@[k].1 as int].mov,
            forall|k: int, x: int|
                0 <= k < job.steps@.len()
                && 0 <= x < old(self).nodes@[job.steps@[k].0 as int].edges@.len() ==> {
                    &&& #[trigger] old(self).spec_uct_score(job.steps@[k].0 as int, x)
                        <= old(self).spec_uct_score(job.steps@[k].0 as int, job.steps@[k].1 as int)
                    &&& (x < job.steps@[k].1 ==> old(self).spec_uct_score(job.steps@[k].0 as int, x)
                        < old(self).spec_uct_score(job.steps@[k].0 as int, job.steps@[k].1 as int))
                },
    {
        let ghost t0 = *self;
        let mut job = Job::new();
        let mut cur: usize = 0;
        let mut is_root = true;
        let mut done = false;
        while !done
            invariant
                t0.wf(),
                t0.vl_below(VL_CAP as int),
                self.wf(),
                Self::same_but_vl(t0, *self),
                cur < self.num_nodes(),
                self.num_nodes() == t0.num_nodes(),
                job.moves@.len() == job.steps@.len(),
                forall|k: int| 0 <= k < job.steps@.len() ==> {
                    &&& ((#[trigger] job.steps@[k]).0 as int) < self.num_nodes()
                    &&& (job.steps@[k].1 as int) < self.nodes@[job.steps@[k].0 as int].edges@.len()
                },
                job.steps@.len() > 0 ==> job.steps@[0].0 == 0,
                forall|k: int| 0 <= k < job.steps@.len() - 1 ==>
                    (#[trigger] self.nodes@[job.steps@[k].0 as int].edges@[job.steps@[k].1 as int]).child
                        == Some(job.steps@[k + 1].0),
                !done ==> !job.at_edge,
                !done ==> job.steps@.len() <= cur,
                done ==> job.steps@.len() <= cur + 1,
                !done ==> (job.steps@.len() == 0 ==> cur == 0),
                !done ==> (job.steps@.len() > 0 ==>
                    self.nodes@[job.steps@[job.steps@.len() - 1].0 as int]
                        .edges@[job.steps@[job.steps@.len() - 1].1 as int].child == Some(cur)),
                !done ==> forall|k: int| 0 <= k < job.steps@.len()
                    ==> ((#[trigger] job.steps@[k]).0 as int) < cur,
                done ==> (job.at_edge ==> job.steps@.len() >= 1),
                done && job.at_edge ==> self.nodes@[job.spec_last_step().0 as int]
                    .edges@[job.spec_last_step().1 as int].child is None,
                done ==> (!job.at_edge && job.steps@.len() > 0 ==> {
                    &&& self.nodes@[job.steps@[job.steps@.len() - 1].0 as int]
                            .edges@[job.steps@[job.steps@.len() - 1].1 as int].child == Some(cur)
                    &&& self.nodes@[cur as int].edges@.len() == 0
                }),
                done ==> (!job.at_edge && job.steps@.len() == 0 ==> self.nodes@[0].edges@.len() == 0),
                forall|i: int, j: int|
                    0 <= i < t0.num_nodes() && 0 <= j < t0.nodes@[i].edges@.len()
                        ==> (#[trigger] self.nodes@[i].edges@[j]).virtual_losses as int
                            == t0.nodes@[i].edges@[j].virtual_losses as int
                                + (if job.has_step(i, j) { 1int } else { 0int }),
                forall|k: int| 0 <= k < job.steps@.len() ==> #[trigger] job.moves@[k]
                    == t0.nodes@[job.steps@[k].0 as int].edges@[job.steps@[k].1 as int].mov,
                forall|k: int, x: int|
                    0 <= k < job.steps@.len()
                    && 0 <= x < t0.nodes@[job.steps@[k].0 as int].edges@.len() ==> {
                        &&& #[trigger] t0.spec_uct_score(job.steps@[k].0 as int, x)
                            <= t0.spec_uct_score(job.steps@[k].0 as int, job.steps@[k].1 as int)
                        &&& (x < job.steps@[k].1 ==> t0.spec_uct_score(job.steps@[k].0 as int, x)
                            < t0.spec_uct_score(job.steps@[k].0 as int, job.steps@[k].1 as int))
                    },
            decreases (if done { 0int } else { self.num_nodes() - cur + 1 }),
        {
            let ghost pre = *self;
            let sel = self.uct_select(cur, is_root);
            match sel {
                None => {
                    done = true;
                }
                Some(j) => {
                    proof {
                        // No step has visited `cur` yet, so its edges are
                        // exactly as at entry and the scores agree.
                        assert(!job.has_step(cur as int, j as int));
                        assert forall|x: int|
                            0 <= x < t0.nodes@[cur as int].edges@.len()
                            implies #[trigger] t0.spec_uct_score(cur as int, x)
                                == self.spec_uct_score(cur as int, x) by {
                            assert(!job.has_step(cur as int, x));
                            assert(self.nodes@[cur as int].edges@[x] == t0.nodes@[cur as int].edges@[x]);
                            assert(self.node_ok(cur as int));
                            assert(self.edge_ok(cur as int, x));
                            match self.nodes@[cur as int].edges@[x].child {
                                Some(c) => {
                                    assert(self.nodes@[c as int].n == t0.nodes@[c as int].n);
                                    assert(self.nodes@[c as int].sum_q == t0.nodes@[c as int].sum_q);
                                }
                                None => {}
                            }
                            assert(self.nodes@[cur as int].n == t0.nodes@[cur as int].n);
                        }
                    }
                    let e = self.nodes[cur].edges[j];
                    proof {
                        assert(e.virtual_losses == t0.nodes@[cur as int].edges@[j as int].virtual_losses);
                        assert((e.virtual_losses as int) < VL_CAP);
                    }
                    self.add_vl(cur, j);
                    let ghost old_job = job;
                    job.steps.push((cur, j));
                    job.moves.push(e.mov);
                    proof {
                        assert forall|i: int, j2: int|
                            0 <= i < t0.num_nodes() && 0 <= j2 < t0.nodes@[i].edges@.len()
                            implies (#[trigger] self.nodes@[i].edges@[j2]).virtual_losses as int
                                == t0.nodes@[i].edges@[j2].virtual_losses as int
                                    + (if job.has_step(i, j2) { 1int } else { 0int }) by {
                            if i == cur as int && j2 == j as int {
                                assert(job.steps@[job.steps@.len() - 1] == (cur, j));
                                assert(job.has_step(i, j2));
                            } else {
                                assert(job.has_step(i, j2) == old_job.has_step(i, j2)) by {
                                    if job.has_step(i, j2) {
                                        let k = choose|k: int| 0 <= k < job.steps@.len()
                                            && (#[trigger] job.steps@[k]).0 == i && job.steps@[k].1 == j2;
                                        assert(k < job.steps@.len() - 1);
                                        assert(old_job.steps@[k] == job.steps@[k]);
                                        assert(old_job.has_step(i, j2));
                                    }
                                    if old_job.has_step(i, j2) {
                                        let k = choose|k: int| 0 <= k < old_job.steps@.len()
                                            && (#[trigger] old_job.steps@[k]).0 == i && old_job.steps@[k].1 == j2;
                                        assert(job.steps@[k] == old_job.steps@[k]);
                                        assert(job.has_step(i, j2));
                                    }
                                }
                            }
                        }
                    }
                    match e.child {
                        Some(c) => {
                            proof {
                                assert(pre.node_ok(cur as int));
                                assert(pre.edge_ok(cur as int, j as int));
                                assert((cur as int) < c as int && (c as int) < pre.num_nodes());
                            }
                            cur = c;
                            is_root = false;
                        }
                        None => {
                            job.at_edge = true;
                            done = true;
                        }
                    }
                }
            }
        }
        proof {
            assert(job.job_wf(*self));
        }
        job
    }

    /// The node indices of a job's backup path strictly increase: each
    /// step's child lies further down the arena.
    pub proof fn lemma_path_increasing(job: Job, t: Root, a: int, b: int)
        requires
            t.wf(),
            job.job_wf(t),
            0 <= a < b < job.spec_node_path(t).len(),
        ensures
            job.spec_node_path(t)[a] < job.spec_node_path(t)[b],
        decreases b - a,
    {
        let path = job.spec_node_path(t);
        let m = job.steps@.len() as int;
        if b == a + 1 {
            let na = job.steps@[a].0 as int;
            assert(t.node_ok(na));
            assert(t.edge_ok(na, job.steps@[a].1 as int));
            if b < m {
                assert(t.nodes@[na].edges@[job.steps@[a].1 as int].child == Some(job.steps@[b].0));
            } else {
                assert(!job.at_edge && b == m);
            }
        } else {
            Self::lemma_path_increasing(job, t, a, b - 1);
            Self::lemma_path_increasing(job, t, b - 1, b);
        }
    }

    /// A backup-path node other than the root hangs off the previous path
    /// node's chosen edge.
    proof fn lemma_path_parent(t: Root, job: Job, y: int)
        requires
            t.wf(),
            job.job_wf(t),
            1 <= y < job.spec_node_path(t).len(),
        ensures
            ({
                let path = job.spec_node_path(t);
                &&& t.nodes@[path[y - 1]].edges@[job.steps@[y - 1].1 as int].child is Some
                &&& t.nodes@[path[y - 1]].edges@[job.steps@[y - 1].1 as int].child->Some_0 as int
                        == path[y]
            }),
    {
        let path = job.spec_node_path(t);
        let m = job.steps@.len() as int;
        assert(path[y - 1] == job.steps@[y - 1].0 as int);
        if y < m {
            assert(t.nodes@[job.steps@[y - 1].0 as int].edges@[job.steps@[y - 1].1 as int].child
                == Some(job.steps@[y].0));
            assert(path[y] == job.steps@[y].0 as int);
        } else {
            assert(!job.at_edge && y == m && m > 0);
        }
    }

    /// After one collision-free rollout — the tree relation being exactly
    /// what `apply_rollout` ensures — the visit-balance equation survives:
    /// each path node's extra visit is matched by its path child's extra
    /// visit (or by the freshly attached leaf), and nothing else moves.
    #[verifier::rlimit(50)]
    #[verifier::spinoff_prover]
    pub proof fn lemma_rollout_preserves_balance(t0: Root, tf: Root, job: Job)
        requires
            t0.wf(),
            tf.wf(),
            job.job_wf(t0),
            job.at_edge ==> !(t0.nodes@[job.spec_last_step().0 as int]
                .edges@[job.spec_last_step().1 as int].child is Some),
            tf.nodes@.len() == t0.nodes@.len() + (if job.at_edge { 1int } else { 0int }),
            forall|i: int| 0 <= i < t0.num_nodes()
                ==> (#[trigger] tf.nodes@[i]).edges@.len() == t0.nodes@[i].edges@.len(),
            forall|x: int| 0 <= x < job.spec_node_path(t0).len()
                ==> (#[trigger] tf.nodes@[job.spec_node_path(t0)[x]]).n
                    == t0.nodes@[job.spec_node_path(t0)[x]].n + 1,
            forall|i: int| 0 <= i < t0.num_nodes() && !job.spec_node_path(t0).contains(i)
                ==> (#[trigger] tf.nodes@[i]).n == t0.nodes@[i].n,
            forall|i: int, j: int|
                0 <= i < t0.num_nodes() && 0 <= j < t0.nodes@[i].edges@.len()
                && !(job.at_edge && i == job.spec_last_step().0 as int
                    && j == job.spec_last_step().1 as int)
                ==> (#[trigger] tf.nodes@[i].edges@[j]).child == t0.nodes@[i].edges@[j].child,
            job.at_edge ==> {
                &&& tf.nodes@[job.spec_last_step().0 as int]
                        .edges@[job.spec_last_step().1 as int].child is Some
                &&& tf.nodes@[job.spec_last_step().0 as int]
                        .edges@[job.spec_last_step().1 as int].child->Some_0 as int
                        == t0.num_nodes()
                &&& tf.nodes@[t0.num_nodes()].n == 1
                &&& forall|j: int| 0 <= j < tf.nodes@[t0.num_nodes()].edges@.len()
                        ==> !((#[trigger] tf.nodes@[t0.num_nodes()].edges@[j]).child is Some)
            },
            balanced(t0),
        ensures
            balanced(tf),
    {
        let path = job.spec_node_path(t0);
        let m = job.steps@.len() as int;
        assert forall|x: int| 0 <= x < path.len() implies
            0 <= #[trigger] path[x] < t0.num_nodes() by {
            if x < m {
                assert(path[x] == job.steps@[x].0 as int);
            } else if m == 0 {
                assert(path[x] == 0);
            } else {
                assert(t0.node_ok(job.steps@[m - 1].0 as int));
                assert(t0.edge_ok(job.steps@[m - 1].0 as int, job.steps@[m - 1].1 as int));
            }
        }
        assert forall|i: int| 0 <= i < tf.num_nodes() implies #[trigger] node_balanced(tf, i) by {
            if i == t0.num_nodes() {
                assert(job.at_edge);
                lemma_child_sum_none(tf, tf.nodes@[i].edges@, tf.nodes@[i].edges@.len() as int);
            } else if path.contains(i) {
                let x = choose|x: int| 0 <= x < path.len() && #[trigger] path[x] == i;
                if !job.at_edge && x == path.len() - 1 {
                    // the terminal leaf has no edges: exempt
                    if m > 0 {
                        assert(t0.nodes@[job.steps@[m - 1].0 as int]
                            .edges@[job.steps@[m - 1].1 as int].child->Some_0 as int == i);
                        assert(t0.nodes@[i].edges@.len() == 0);
                    } else {
                        assert(i == 0 && t0.nodes@[0].edges@.len() == 0);
                    }
                    assert(tf.nodes@[i].edges@.len() == 0);
                } else {
                    assert(x < m);
                    assert(path[x] == job.steps@[x].0 as int);
                    let sj = job.steps@[x].1 as int;
                    assert(t0.node_ok(i));
                    assert(0 <= sj < t0.nodes@[i].edges@.len());
                    assert(path[0] == 0);
                    // every other edge's child stays off the path
                    assert forall|j: int|
                        0 <= j < t0.nodes@[i].edges@.len() && j != sj
                        && (#[trigger] t0.nodes@[i].edges@[j]).child is Some
                        implies tf.nodes@[t0.nodes@[i].edges@[j].child->Some_0 as int].n
                            == t0.nodes@[t0.nodes@[i].edges@[j].child->Some_0 as int].n by {
                        let c = t0.nodes@[i].edges@[j].child->Some_0 as int;
                        assert(t0.edge_ok(i, j));
                        if path.contains(c) {
                            let y = choose|y: int| 0 <= y < path.len() && #[trigger] path[y] == c;
                            assert(y >= 1) by {
                                if y == 0 {
                                    assert(path[0] == 0);
                                }
                            }
                            Self::lemma_path_parent(t0, job, y);
                            let pi = path[y - 1];
                            let pj = job.steps@[y - 1].1 as int;
                            if !(i == pi && j == pj) {
                                assert(t0.nodes@[i].edges@[j].child
                                    == t0.nodes@[pi].edges@[pj].child);
                                assert(false);
                            }
                            if y - 1 != x {
                                if y - 1 < x {
                                    Self::lemma_path_increasing(job, t0, y - 1, x);
                                } else {
                                    Self::lemma_path_increasing(job, t0, x, y - 1);
                                }
                                assert(false);
                            }
                            assert(false);
                        }
                    }
                    // the step edge's contribution grows by exactly one
                    assert((match tf.nodes@[i].edges@[sj].child {
                        Some(c) => tf.nodes@[c as int].n as int,
                        None => 0int,
                    }) == (match t0.nodes@[i].edges@[sj].child {
                        Some(c) => t0.nodes@[c as int].n as int,
                        None => 0int,
                    }) + 1) by {
                        if job.at_edge && x == m - 1 {
                            assert(job.spec_last_step().0 as int == i
                                && job.spec_last_step().1 as int == sj);
                            assert(tf.nodes@[i].edges@[sj].child is Some);
                            assert(tf.nodes@[i].edges@[sj].child->Some_0 as int
                                == t0.num_nodes());
                            assert(tf.nodes@[t0.num_nodes()].n == 1);
                            assert(!(t0.nodes@[i].edges@[sj].child is Some));
                        } else {
                            assert(x + 1 < path.len());
                            Self::lemma_path_parent(t0, job, x + 1);
                            assert(t0.nodes@[i].edges@[sj].child is Some
                                && t0.nodes@[i].edges@[sj].child->Some_0 as int == path[x + 1]);
                            assert(!(job.at_edge && i == job.spec_last_step().0 as int
                                && sj == job.spec_last_step().1 as int)) by {
                                if job.at_edge && i == job.spec_last_step().0 as int {
                                    assert(path[m - 1] == job.spec_last_step().0 as int);
                                    if x != m - 1 {
                                        if x < m - 1 {
                                            Self::lemma_path_increasing(job, t0, x, m - 1);
                                        }
                                        assert(false);
                                    }
                                }
                            }
                            assert(tf.nodes@[i].edges@[sj].child
                                == t0.nodes@[i].edges@[sj].child);
                            assert(tf.nodes@[path[x + 1]].n == t0.nodes@[path[x + 1]].n + 1);
                        }
                    }
                    assert forall|j: int|
                        0 <= j < t0.nodes@[i].edges@.len() && j != sj
                        implies (#[trigger] tf.nodes@[i].edges@[j]).child
                            == t0.nodes@[i].edges@[j].child by {
                        if job.at_edge && i == job.spec_last_step().0 as int {
                            assert(path[m - 1] == job.spec_last_step().0 as int);
                            if x != m - 1 {
                                if x < m - 1 {
                                    Self::lemma_path_increasing(job, t0, x, m - 1);
                                } else {
                                    Self::lemma_path_increasing(job, t0, m - 1, x);
                                }
                                assert(false);
                            }
                            assert(sj == job.spec_last_step().1 as int);
                        }
                    }
                    lemma_child_sum_bump(t0, tf, t0.nodes@[i].edges@, tf.nodes@[i].edges@,
                        t0.nodes@[i].edges@.len() as int, sj);
                    assert(node_balanced(t0, i));
                    assert(tf.nodes@[i].n == t0.nodes@[i].n + 1);
                }
            } else {
                assert(i < t0.num_nodes());
                assert(t0.node_ok(i));
                assert(tf.nodes@[i].n == t0.nodes@[i].n);
                assert(path[0] == 0);
                assert forall|j: int|
                    0 <= j < t0.nodes@[i].edges@.len()
                    && (#[trigger] t0.nodes@[i].edges@[j]).child is Some
                    implies tf.nodes@[t0.nodes@[i].edges@[j].child->Some_0 as int].n
                        == t0.nodes@[t0.nodes@[i].edges@[j].child->Some_0 as int].n by {
                    let c = t0.nodes@[i].edges@[j].child->Some_0 as int;
                    assert(t0.edge_ok(i, j));
                    if path.contains(c) {
                        let y = choose|y: int| 0 <= y < path.len() && #[trigger] path[y] == c;
                        assert(y >= 1) by {
                            if y == 0 {
                                assert(path[0] == 0);
                            }
                        }
                        Self::lemma_path_parent(t0, job, y);
                        let pi = path[y - 1];
                        let pj = job.steps@[y - 1].1 as int;
                        if !(i == pi && j == pj) {
                            assert(t0.nodes@[i].edges@[j].child
                                == t0.nodes@[pi].edges@[pj].child);
                            assert(false);
                        }
                        assert(path.contains(pi)) by {
                            assert(path[y - 1] == pi);
                        }
                        assert(false);
                    }
                }
                assert forall|j: int| 0 <= j < t0.nodes@[i].edges@.len()
                    implies (#[trigger] tf.nodes@[i].edges@[j]).child
                        == t0.nodes@[i].edges@[j].child by {
                    if job.at_edge {
                        assert(path[m - 1] == job.steps@[m - 1].0 as int);
                        assert(path.contains(path[m - 1]));
                    }
                }
                lemma_child_sum_same(t0, tf, t0.nodes@[i].edges@, tf.nodes@[i].edges@,
                    t0.nodes@[i].edges@.len() as int);
                assert(node_balanced(t0, i));
            }
        }
    }

    /// Expand (when the job stopped at an unexpanded edge), back the leaf
    /// value up along the job's path, and clear the virtual losses the
    /// job's selection added. The leaf value is −1 for a mated side, 0
    /// for stalemate, and the evaluator's value for an ongoing position;
    /// the stored leaf q is `value / 2 + 1/2`.
    #[verifier::rlimit(50)]
    #[verifier::spinoff_prover]
    pub fn apply_rollout(&mut self, job: &Job, eval: LeafEval)
        requires
            old(self).wf(),
            job.job_wf(*old(self)),
            eval.wf(),
            !job.at_edge ==> eval.status != GameStatus::Ongoing,
            old(self).backups < BACKUP_CAP,
            old(self).same_paths < usize::MAX,
            job.steps@.len() < 0x1000_0000,
        ensures
            final(self).wf(),
            tree_extends(*old(self), *final(self)),
            final(self).backups == old(self).backups + 1,
            ({
                let t0 = *old(self);
                let qls = spec_value_to_q(spec_leaf_value(eval.status, eval.value_milli as int));
                let path = job.spec_node_path(t0);
                &&& forall|i: int, j: int|
                        0 <= i < t0.num_nodes() && 0 <= j < t0.nodes@[i].edges@.len()
                            ==> (#[trigger] final(self).nodes@[i].edges@[j]).virtual_losses
                                == (if job.has_step(i, j) { 0int } else {
                                    t0.nodes@[i].edges@[j].virtual_losses as int
                                })
                &&& forall|i: int, j: int|
                        t0.num_nodes() <= i < final(self).num_nodes()
                        && 0 <= j < final(self).nodes@[i].edges@.len()
                            ==> (#[trigger] final(self).nodes@[i].edges@[j]).virtual_losses == 0
                &&& final(self).depth as int == (if t0.depth as int >= job.spec_path_len() {
                        t0.depth as int
                    } else {
                        job.spec_path_len()
                    })
                &&& forall|x: int| 0 <= x < path.len() ==> {
                        &&& (#[trigger] final(self).nodes@[path[x]]).n == t0.nodes@[path[x]].n + 1
                        &&& final(self).nodes@[path[x]].sum_q == t0.nodes@[path[x]].sum_q
                                + spec_backup_add(job.at_edge, qls, path.len() as int, x)
                    }
                &&& forall|i: int| 0 <= i < t0.num_nodes() && !path.contains(i)
                        ==> #[trigger] final(self).nodes@[i] == t0.nodes@[i]
                &&& forall|i: int, j: int|
                        0 <= i < t0.num_nodes() && 0 <= j < t0.nodes@[i].edges@.len()
                        && t0.nodes@[i].edges@[j].child is None
                        && !(job.at_edge && i == job.spec_last_step().0 as int
                            && j == job.spec_last_step().1 as int)
                            ==> (#[trigger] final(self).nodes@[i].edges@[j]).child is None
                &&& (job.at_edge && t0.nodes@[job.steps@[job.steps@.len() - 1].0 as int]
                        .edges@[job.steps@[job.steps@.len() - 1].1 as int].child is None ==> {
                        &&& final(self).num_nodes() == t0.num_nodes() + 1
                        &&& final(self).same_paths == t0.same_paths
                        &&& final(self).nodes@[t0.num_nodes()].n == 1
                        &&& final(self).nodes@[t0.num_nodes()].sum_q == qls
                        &&& final(self).nodes@[t0.num_nodes()].edges@.len() == eval.priors@.len()
                        &&& exists|s: Seq<(Move, u64)>|
                                s.to_multiset() == eval.priors@.to_multiset()
                                && sorted_desc(s)
                                && #[trigger] edges_match_sorted(
                                    final(self).nodes@[t0.num_nodes()].edges@, s, sum_raw(s))
                        &&& final(self).nodes@[job.steps@[job.steps@.len() - 1].0 as int]
                                .edges@[job.steps@[job.steps@.len() - 1].1 as int].child
                                == Some(t0.nodes@.len() as usize)
                    })
                &&& (job.at_edge && t0.nodes@[job.steps@[job.steps@.len() - 1].0 as int]
                        .edges@[job.steps@[job.steps@.len() - 1].1 as int].child is Some ==> {
                        &&& final(self).num_nodes() == t0.num_nodes()
                        &&& final(self).same_paths == t0.same_paths + 1
                    })
                &&& (!job.at_edge ==> final(self).num_nodes() == t0.num_nodes()
                        && final(self).same_paths == t0.same_paths)
            }),
    {
        let ghost t0 = *old(self);
        let m = job.steps.len();
        let ghost path = job.spec_node_path(t0);
        let ghost qls = spec_value_to_q(spec_leaf_value(eval.status, eval.value_milli as int));

        let v: i64 = match eval.status {
            GameStatus::Checkmate => -1000,
            GameStatus::Stalemate => 0,
            GameStatus::Ongoing => eval.value_milli,
        };
        let q_leaf: u64 = ((v + 1000) / 2) as u64;
        proof {
            assert(q_leaf <= Q_SCALE);
            assert(q_leaf as int == qls);
        }

        // Expansion, when the descent stopped at an unexpanded edge.
        let ghost mut fresh = false;
        let ghost mut wf_base = *old(self);
        if job.at_edge {
            let (ni, ei) = job.steps[m - 1];
            let was_fresh = self.attach_child(ni, ei, q_leaf, eval.priors);
            proof {
                fresh = was_fresh;
                wf_base = *self;
            }
            if !was_fresh {
                self.same_paths = self.same_paths + 1;
            }
        }

        // Depth and backup accounting.
        let path_len = if job.at_edge { m } else { m + 1 };
        if self.depth < path_len {
            self.depth = path_len;
        }
        self.backups = self.backups + 1;
        proof {
            Self::lemma_wf_more_backups(wf_base, *self);
        }

        let ghost t1 = *self;
        proof {
            // The tree so far: possibly one fresh child attached and the
            // counters moved; statistics and virtual losses untouched.
            if job.at_edge {
                lemma_extends_same_nodes(t0, wf_base, t1);
            } else {
                lemma_extends_refl(t0);
                lemma_extends_same_nodes(t0, t0, t1);
            }
            lemma_job_wf_extends(*job, t0, t1);
            assert(job.spec_node_path(t1) =~= path) by {
                if !job.at_edge && m > 0 {
                    assert(t1.nodes@[job.steps@[m - 1].0 as int]
                        == t0.nodes@[job.steps@[m - 1].0 as int]);
                }
            }
            assert forall|i: int| 0 <= i < t0.num_nodes() implies {
                &&& (#[trigger] t1.nodes@[i]).n == t0.nodes@[i].n
                &&& t1.nodes@[i].sum_q == t0.nodes@[i].sum_q
                &&& t1.nodes@[i].edges@.len() == t0.nodes@[i].edges@.len()
                &&& forall|j: int| 0 <= j < t0.nodes@[i].edges@.len() ==> {
                        let e0 = t0.nodes@[i].edges@[j];
                        let e1 = #[trigger] t1.nodes@[i].edges@[j];
                        &&& e1.mov == e0.mov
                        &&& e1.p == e0.p
                        &&& e1.virtual_losses == e0.virtual_losses
                        &&& (!(job.at_edge && i == job.spec_last_step().0 as int
                                && j == job.spec_last_step().1 as int) ==> e1.child == e0.child)
                    }
            } by {
                assert(t1.nodes@[i] == wf_base.nodes@[i]);
            }
            // Headroom for each backup increment.
            assert forall|x: int| 0 <= x < job.spec_node_path(t1).len() implies
                t1.nodes@[#[trigger] job.spec_node_path(t1)[x]].n <= t1.backups by {
                assert(job.spec_node_path(t1)[x] == path[x]);
                if x < m {
                    assert(path[x] == job.steps@[x].0 as int);
                    assert(t0.node_ok(path[x]));
                } else if m == 0 {
                    assert(path[x] == 0);
                    assert(t0.node_ok(0));
                } else {
                    assert(t0.node_ok(job.steps@[m - 1].0 as int));
                    assert(t0.edge_ok(job.steps@[m - 1].0 as int, job.steps@[m - 1].1 as int));
                    assert(0 <= path[x] < t0.num_nodes());
                    assert(t0.node_ok(path[x]));
                }
            }
        }
        self.backup_and_clear(job, q_leaf);
        proof {
            let tf = *self;
            assert(job.spec_node_path(t1) == path);
            assert forall|x: int| 0 <= x < path.len() implies
                0 <= #[trigger] path[x] < t0.num_nodes() by {
                if x < m {
                    assert(path[x] == job.steps@[x].0 as int);
                } else if m == 0 {
                    assert(path[x] == 0);
                } else {
                    assert(t0.node_ok(job.steps@[m - 1].0 as int));
                    assert(t0.edge_ok(job.steps@[m - 1].0 as int, job.steps@[m - 1].1 as int));
                }
            }
            // Statistics along the path, in terms of the entry tree.
            assert forall|x: int| 0 <= x < path.len() implies {
                &&& (#[trigger] tf.nodes@[path[x]]).n == t0.nodes@[path[x]].n + 1
                &&& tf.nodes@[path[x]].sum_q == t0.nodes@[path[x]].sum_q
                        + spec_backup_add(job.at_edge, qls, path.len() as int, x)
            } by {
                assert(tf.nodes@[path[x]].n == t1.nodes@[path[x]].n + 1);
            }
            // Off the path nothing moved at all.
            assert forall|i: int| 0 <= i < t0.num_nodes() && !path.contains(i) implies
                #[trigger] tf.nodes@[i] == t0.nodes@[i] by {
                assert(tf.nodes@[i] == t1.nodes@[i]);
                if job.at_edge {
                    assert(path[m - 1] == job.steps@[m - 1].0 as int);
                    assert(path.contains(path[m - 1]));
                    assert(i != job.steps@[m - 1].0 as int);
                    assert(t1.nodes@[i] == wf_base.nodes@[i]);
                }
                assert(t1.nodes@[i] == t0.nodes@[i]);
            }
            // Virtual losses: cleared on the steps, untouched elsewhere.
            assert forall|i: int, j: int|
                0 <= i < t0.num_nodes() && 0 <= j < t0.nodes@[i].edges@.len()
                implies (#[trigger] tf.nodes@[i].edges@[j]).virtual_losses
                    == (if job.has_step(i, j) { 0int } else {
                        t0.nodes@[i].edges@[j].virtual_losses as int
                    }) by {
                if job.has_step(i, j) {
                    let x = choose|x: int| 0 <= x < job.steps@.len()
                        && (#[trigger] job.steps@[x]).0 == i && job.steps@[x].1 == j;
                    assert(tf.nodes@[i].edges@[j]
                        == (Edge { virtual_losses: 0, ..t1.nodes@[i].edges@[j] }));
                } else if exists|x: int| 0 <= x < m && (#[trigger] job.steps@[x]).0 == i {
                    let x = choose|x: int| 0 <= x < m && (#[trigger] job.steps@[x]).0 == i;
                    assert(job.steps@[x].1 as int != j);
                    assert(tf.nodes@[i].edges@[j] == t1.nodes@[i].edges@[j]);
                } else if !job.at_edge && i == path[path.len() - 1] {
                    assert(tf.nodes@[i].edges@ == t1.nodes@[i].edges@);
                } else {
                    assert(!path.contains(i)) by {
                        if path.contains(i) {
                            let x = choose|x: int| 0 <= x < path.len() && #[trigger] path[x] == i;
                            if x < m {
                                assert(job.steps@[x].0 == i);
                            }
                        }
                    }
                    assert(tf.nodes@[i] == t0.nodes@[i]);
                }
            }
            // The expansion outcome and the shape of a fresh child.
            if job.at_edge {
                let ni = job.steps@[m - 1].0 as int;
                let ei = job.steps@[m - 1].1 as int;
                assert(0 <= m - 1 < m && job.steps@[m - 1].0 as int == ni
                    && job.steps@[m - 1].1 as int == ei);
                assert(job.has_step(ni, ei));
                assert(tf.nodes@[ni].edges@[ei]
                    == (Edge { virtual_losses: 0, ..t1.nodes@[ni].edges@[ei] }));
                if t0.nodes@[ni].edges@[ei].child is None {
                    assert(fresh);
                    assert(t1.nodes@[ni].edges@[ei].child == Some(t0.nodes@.len() as usize));
                    assert(!path.contains(t0.num_nodes() as int)) by {
                        if path.contains(t0.num_nodes() as int) {
                            let x = choose|x: int|
                                0 <= x < path.len() && #[trigger] path[x] == t0.num_nodes() as int;
                        }
                    }
                    assert(tf.nodes@[t0.num_nodes()] == t1.nodes@[t0.num_nodes()]);
                    assert forall|j: int| 0 <= j < tf.nodes@[t0.num_nodes() as int].edges@.len()
                        implies (#[trigger] tf.nodes@[t0.num_nodes() as int].edges@[j])
                            .virtual_losses == 0 by {
                        assert(wf_base.nodes@[t0.num_nodes() as int].edges@[j].virtual_losses == 0);
                    }
                    let s = choose|s: Seq<(Move, u64)>|
                        s.to_multiset() == eval.priors@.to_multiset() && sorted_desc(s)
                            && #[trigger] edges_match_sorted(
                                wf_base.nodes@[t0.num_nodes()].edges@, s, sum_raw(s));
                    assert(edges_match_sorted(tf.nodes@[t0.num_nodes()].edges@, s, sum_raw(s)));
                } else {
                    assert(!fresh);
                }
            }
            // No other edge gains a child, and everything old persists.
            assert forall|i: int, j: int|
                0 <= i < t0.num_nodes() && 0 <= j < t0.nodes@[i].edges@.len() implies {
                    let e0 = t0.nodes@[i].edges@[j];
                    let ef = #[trigger] tf.nodes@[i].edges@[j];
                    &&& ef.mov == e0.mov
                    &&& ef.p == e0.p
                    &&& (e0.child is Some ==> ef.child == e0.child)
                    &&& (e0.child is None && !(job.at_edge && i == job.spec_last_step().0 as int
                            && j == job.spec_last_step().1 as int) ==> ef.child is None)
                } by {
                if exists|x: int| 0 <= x < m && (#[trigger] job.steps@[x]).0 == i {
                    let x = choose|x: int| 0 <= x < m && (#[trigger] job.steps@[x]).0 == i;
                    if j == job.steps@[x].1 as int {
                        assert(tf.nodes@[i].edges@[j]
                            == (Edge { virtual_losses: 0, ..t1.nodes@[i].edges@[j] }));
                    } else {
                        assert(tf.nodes@[i].edges@[j] == t1.nodes@[i].edges@[j]);
                    }
                    if !(job.at_edge && i == job.spec_last_step().0 as int
                        && j == job.spec_last_step().1 as int) {
                        assert(t1.nodes@[i].edges@[j].child == t0.nodes@[i].edges@[j].child);
                    } else {
                        assert(t0.nodes@[i].edges@[j].child is Some
                            ==> t1.nodes@[i].edges@[j].child == t0.nodes@[i].edges@[j].child);
                    }
                } else if !job.at_edge && i == path[path.len() - 1] {
                    assert(tf.nodes@[i].edges@ == t1.nodes@[i].edges@);
                } else {
                    assert(!path.contains(i)) by {
                        if path.contains(i) {
                            let x = choose|x: int| 0 <= x < path.len() && #[trigger] path[x] == i;
                            if x < m {
                                assert(job.steps@[x].0 == i);
                            }
                        }
                    }
                    assert(tf.nodes@[i] == t0.nodes@[i]);
                }
            }
            assert(tree_extends(t0, tf)) by {
                assert forall|i: int| 0 <= i < t0.num_nodes() implies
                    (#[trigger] tf.nodes@[i]).edges@.len() == t0.nodes@[i].edges@.len() by {
                    if exists|x: int| 0 <= x < m && (#[trigger] job.steps@[x]).0 == i {
                        let x = choose|x: int| 0 <= x < m && (#[trigger] job.steps@[x]).0 == i;
                        assert(tf.nodes@[i].edges@.len() == t1.nodes@[i].edges@.len());
                    } else if !job.at_edge && i == path[path.len() - 1] {
                        assert(tf.nodes@[i].edges@ == t1.nodes@[i].edges@);
                    } else {
                        assert(!path.contains(i)) by {
                            if path.contains(i) {
                                let x = choose|x: int|
                                    0 <= x < path.len() && #[trigger] path[x] == i;
                                if x < m {
                                    assert(job.steps@[x].0 == i);
                                }
                            }
                        }
                        assert(tf.nodes@[i] == t0.nodes@[i]);
                    }
                }
            }
            assert(path_len as int == job.spec_path_len());
        }

    }

    /// Walk the job's backup path: add one visit with the
    /// parity-alternated leaf value at every node on it — the terminal
    /// leaf's own node included — and clear the virtual losses of the
    /// path's edges. Nothing else in the tree moves.
    #[verifier::rlimit(50)]
    #[verifier::spinoff_prover]
    fn backup_and_clear(&mut self, job: &Job, q_leaf: u64)
        requires
            old(self).wf(),
            job.job_wf(*old(self)),
            q_leaf <= Q_SCALE,
            job.steps@.len() < 0x1000_0000,
            forall|x: int| 0 <= x < job.spec_node_path(*old(self)).len()
                ==> old(self).nodes@[#[trigger] job.spec_node_path(*old(self))[x]].n
                    <= old(self).backups,
        ensures
            final(self).wf(),
            final(self).nodes@.len() == old(self).nodes@.len(),
            final(self).depth == old(self).depth,
            final(self).same_paths == old(self).same_paths,
            final(self).backups == old(self).backups,
            ({
                let tin = *old(self);
                let path = job.spec_node_path(tin);
                &&& forall|x: int| 0 <= x < path.len() ==> {
                        &&& (#[trigger] final(self).nodes@[path[x]]).n == tin.nodes@[path[x]].n + 1
                        &&& final(self).nodes@[path[x]].sum_q == tin.nodes@[path[x]].sum_q
                                + spec_backup_add(job.at_edge, q_leaf as int, path.len() as int, x)
                    }
                &&& forall|i: int| 0 <= i < tin.num_nodes() && !path.contains(i)
                        ==> #[trigger] final(self).nodes@[i] == tin.nodes@[i]
                &&& forall|x: int| 0 <= x < job.steps@.len() ==> {
                        &&& final(self).nodes@[(#[trigger] job.steps@[x]).0 as int].edges@.len()
                                == tin.nodes@[job.steps@[x].0 as int].edges@.len()
                        &&& (forall|j2: int|
                                0 <= j2 < tin.nodes@[job.steps@[x].0 as int].edges@.len()
                                && j2 != job.steps@[x].1 as int
                                    ==> #[trigger] final(self).nodes@[job.steps@[x].0 as int]
                                        .edges@[j2]
                                        == tin.nodes@[job.steps@[x].0 as int].edges@[j2])
                        &&& final(self).nodes@[job.steps@[x].0 as int]
                                .edges@[job.steps@[x].1 as int]
                                == (Edge { virtual_losses: 0,
                                    ..tin.nodes@[job.steps@[x].0 as int]
                                        .edges@[job.steps@[x].1 as int] })
                    }
                &&& (!job.at_edge ==> final(self).nodes@[path[path.len() - 1]].edges@
                        == tin.nodes@[path[path.len() - 1]].edges@)
            }),
    {
        let ghost tin = *old(self);
        let m = job.steps.len();
        let ghost path = job.spec_node_path(tin);
        let path_len = if job.at_edge { m } else { m + 1 };

        // The terminal leaf's own node takes the leaf value first.
        let mut lt: usize = 0;
        if !job.at_edge {
            if m > 0 {
                let (ni, ei) = job.steps[m - 1];
                proof {
                    assert(tin.node_ok(ni as int));
                    assert(tin.edge_ok(ni as int, ei as int));
                }
                lt = match self.nodes[ni].edges[ei].child {
                    Some(c) => c,
                    None => 0,
                };
            }
            proof {
                assert(path[path.len() - 1] == lt as int);
                assert((lt as int) < tin.num_nodes());
                assert(tin.node_ok(lt as int));
                assert(tin.nodes@[lt as int].n <= tin.backups);
            }
            self.bump_stats(lt, q_leaf);
        }
        let ghost tmid = *self;
        proof {
            assert forall|x: int| 0 <= x < m implies
                #[trigger] tmid.nodes@[job.steps@[x].0 as int]
                    == tin.nodes@[job.steps@[x].0 as int] by {
                if !job.at_edge {
                    Self::lemma_path_increasing(*job, tin, x, m as int);
                    assert(path[x] == job.steps@[x].0 as int && path[m as int] == lt as int);
                }
            }
        }

        // Back up the steps' nodes and clear their virtual losses.
        let mut k: usize = 0;
        while k < m
            invariant
                tin.wf(),
                job.job_wf(tin),
                m == job.steps@.len(),
                m < 0x1000_0000,
                path == job.spec_node_path(tin),
                path_len == path.len(),
                path_len == (if job.at_edge { m as int } else { m + 1 }),
                q_leaf <= Q_SCALE,
                forall|x: int| 0 <= x < path.len()
                    ==> tin.nodes@[#[trigger] path[x]].n <= tin.backups,
                k <= m,
                self.wf(),
                tin.num_nodes() == tmid.num_nodes(),
                self.nodes@.len() == tmid.nodes@.len(),
                self.depth == tmid.depth,
                self.same_paths == tmid.same_paths,
                self.backups == tmid.backups,
                tmid.backups == tin.backups,
                forall|x: int| 0 <= x < m ==>
                    #[trigger] tmid.nodes@[job.steps@[x].0 as int]
                        == tin.nodes@[job.steps@[x].0 as int],
                forall|x: int| 0 <= x < k ==> {
                    &&& self.nodes@[(#[trigger] job.steps@[x]).0 as int].n
                            == tmid.nodes@[job.steps@[x].0 as int].n + 1
                    &&& self.nodes@[job.steps@[x].0 as int].sum_q
                            == tmid.nodes@[job.steps@[x].0 as int].sum_q
                                + spec_backup_add(job.at_edge, q_leaf as int, path_len as int, x)
                    &&& self.nodes@[job.steps@[x].0 as int].edges@.len()
                            == tmid.nodes@[job.steps@[x].0 as int].edges@.len()
                    &&& forall|j2: int|
                            0 <= j2 < self.nodes@[job.steps@[x].0 as int].edges@.len()
                            && j2 != job.steps@[x].1 as int
                                ==> #[trigger] self.nodes@[job.steps@[x].0 as int].edges@[j2]
                                    == tmid.nodes@[job.steps@[x].0 as int].edges@[j2]
                    &&& self.nodes@[job.steps@[x].0 as int].edges@[job.steps@[x].1 as int]
                            == (Edge { virtual_losses: 0,
                                ..tmid.nodes@[job.steps@[x].0 as int]
                                    .edges@[job.steps@[x].1 as int] })
                },
                forall|i: int|
                    0 <= i < tmid.num_nodes()
                    && (forall|x: int| 0 <= x < m ==> (#[trigger] job.steps@[x]).0 != i)
                    ==> #[trigger] self.nodes@[i] == tmid.nodes@[i],
                forall|x: int| k <= x < m ==>
                    #[trigger] self.nodes@[job.steps@[x].0 as int]
                        == tmid.nodes@[job.steps@[x].0 as int],
            decreases m - k,
        {
            let (ni, ei) = job.steps[k];
            let d = path_len - 1 - k;
            let leaf_val: u64 = if job.at_edge { Q_SCALE - q_leaf } else { q_leaf };
            let add: u64 = if d % 2 == 0 { leaf_val } else { Q_SCALE - leaf_val };
            proof {
                assert(add as int
                    == spec_backup_add(job.at_edge, q_leaf as int, path_len as int, k as int));
                assert(self.nodes@[ni as int] == tmid.nodes@[ni as int]);
                assert(path[k as int] == ni as int);
                assert(self.nodes@[ni as int].n == tin.nodes@[ni as int].n);
                assert(tin.node_ok(ni as int));
                assert forall|x: int| 0 <= x < m && x != k implies
                    (#[trigger] job.steps@[x]).0 != ni by {
                    if x < k {
                        Self::lemma_path_increasing(*job, tin, x, k as int);
                    } else {
                        Self::lemma_path_increasing(*job, tin, k as int, x);
                    }
                }
            }
            self.bump_stats(ni, add);
            self.clear_vl(ni, ei);
            k += 1;
        }
        proof {
            // Path nodes carry the update; everything else is untouched.
            assert forall|x: int| 0 <= x < path.len() implies {
                &&& (#[trigger] self.nodes@[path[x]]).n == tin.nodes@[path[x]].n + 1
                &&& self.nodes@[path[x]].sum_q == tin.nodes@[path[x]].sum_q
                        + spec_backup_add(job.at_edge, q_leaf as int, path.len() as int, x)
            } by {
                if x < m {
                    assert(path[x] == job.steps@[x].0 as int);
                } else {
                    assert(!job.at_edge && x == m);
                    assert(path[x] == lt as int);
                    assert forall|x2: int| 0 <= x2 < m implies
                        (#[trigger] job.steps@[x2]).0 != lt by {
                        Self::lemma_path_increasing(*job, tin, x2, m as int);
                    }
                    assert(self.nodes@[lt as int] == tmid.nodes@[lt as int]);
                    assert(spec_backup_add(job.at_edge, q_leaf as int, path.len() as int, x)
                        == q_leaf as int);
                }
            }
            assert forall|i: int| 0 <= i < tin.num_nodes() && !path.contains(i) implies
                #[trigger] self.nodes@[i] == tin.nodes@[i] by {
                assert forall|x: int| 0 <= x < m implies (#[trigger] job.steps@[x]).0 != i by {
                    if job.steps@[x].0 == i {
                        assert(path[x] == i);
                        assert(path.contains(i));
                    }
                }
                assert(self.nodes@[i] == tmid.nodes@[i]);
                if !job.at_edge {
                    assert(path[path.len() - 1] == lt as int);
                    if i == lt as int {
                        assert(path.contains(i));
                    }
                }
                assert(tmid.nodes@[i] == tin.nodes@[i]);
            }
            if !job.at_edge {
                assert forall|x2: int| 0 <= x2 < m implies
                    (#[trigger] job.steps@[x2]).0 != lt by {
                    Self::lemma_path_increasing(*job, tin, x2, m as int);
                }
                assert(self.nodes@[lt as int] == tmid.nodes@[lt as int]);
                assert(self.nodes@[path[path.len() - 1]].edges@
                    == tin.nodes@[path[path.len() - 1]].edges@);
            }
        }
    }

    /// Run `count` descents back to back as one batch: each leaves its
    /// virtual losses in the tree before the next starts, steering the
    /// batch's selections apart. Every dirtied edge lies on one of the
    /// returned jobs' paths.
    pub fn select_batch(&mut self, count: usize) -> (jobs: Vec<Job>)
        requires
            old(self).wf(),
            old(self).vl_clear(),
            count <= 0x100_0000,
        ensures
            final(self).wf(),
            Self::same_but_vl(*old(self), *final(self)),
            jobs@.len() == count,
            forall|k: int| 0 <= k < count ==> (#[trigger] jobs@[k]).job_wf(*final(self)),
            forall|k: int| 0 <= k < count
                ==> (#[trigger] jobs@[k]).steps@.len() <= final(self).num_nodes(),
            forall|k: int| 0 <= k < count && (#[trigger] jobs@[k]).at_edge
                ==> final(self).nodes@[jobs@[k].spec_last_step().0 as int]
                    .edges@[jobs@[k].spec_last_step().1 as int].child is None,
            forall|i: int, j: int|
                0 <= i < final(self).num_nodes() && 0 <= j < final(self).nodes@[i].edges@.len()
                && (#[trigger] final(self).nodes@[i].edges@[j]).virtual_losses > 0
                ==> exists|k: int| 0 <= k < count && (#[trigger] jobs@[k]).has_step(i, j),
            balanced(*old(self)) ==> balanced(*final(self)),
    {
        let ghost t0 = *self;
        let mut jobs: Vec<Job> = Vec::new();
        let mut c: usize = 0;
        while c < count
            invariant
                t0.wf(),
                t0.vl_clear(),
                count <= 0x100_0000,
                self.wf(),
                Self::same_but_vl(t0, *self),
                c <= count,
                jobs@.len() == c,
                forall|k: int| 0 <= k < c ==> (#[trigger] jobs@[k]).job_wf(*self),
                forall|k: int| 0 <= k < c
                    ==> (#[trigger] jobs@[k]).steps@.len() <= self.num_nodes(),
                forall|k: int| 0 <= k < c && (#[trigger] jobs@[k]).at_edge
                    ==> self.nodes@[jobs@[k].spec_last_step().0 as int]
                        .edges@[jobs@[k].spec_last_step().1 as int].child is None,
                forall|i: int, j: int|
                    0 <= i < self.num_nodes() && 0 <= j < self.nodes@[i].edges@.len()
                        ==> (#[trigger] self.nodes@[i].edges@[j]).virtual_losses <= c,
                forall|i: int, j: int|
                    0 <= i < self.num_nodes() && 0 <= j < self.nodes@[i].edges@.len()
                    && (#[trigger] self.nodes@[i].edges@[j]).virtual_losses > 0
                    ==> exists|k: int| 0 <= k < c && (#[trigger] jobs@[k]).has_step(i, j),
            decreases count - c,
        {
            let ghost pre = *self;
            proof {
                assert forall|i: int, j: int|
                    0 <= i < pre.num_nodes() && 0 <= j < pre.nodes@[i].edges@.len()
                    implies ((#[trigger] pre.nodes@[i].edges@[j]).virtual_losses as int) < VL_CAP by {
                    assert(pre.nodes@[i].edges@[j].virtual_losses <= c);
                }
            }
            let job = self.select_task();
            let ghost old_jobs = jobs@;
            jobs.push(job);
            proof {
                assert(Self::same_but_vl(pre, *self));
                assert forall|k: int| 0 <= k < c + 1 implies (#[trigger] jobs@[k]).job_wf(*self) by {
                    if k < c {
                        assert(old_jobs[k].job_wf(pre));
                        assert(tree_extends(pre, *self));
                        lemma_job_wf_extends(old_jobs[k], pre, *self);
                        assert(jobs@[k] == old_jobs[k]);
                    }
                }
                assert forall|k: int| 0 <= k < c + 1 && (#[trigger] jobs@[k]).at_edge
                    implies self.nodes@[jobs@[k].spec_last_step().0 as int]
                        .edges@[jobs@[k].spec_last_step().1 as int].child is None by {
                    if k < c {
                        assert(jobs@[k] == old_jobs[k]);
                        assert(old_jobs[k].job_wf(pre));
                        let ls = old_jobs[k].spec_last_step();
                        assert((ls.0 as int) < pre.num_nodes()
                            && (ls.1 as int) < pre.nodes@[ls.0 as int].edges@.len());
                        assert(self.nodes@[ls.0 as int].edges@[ls.1 as int].child
                            == pre.nodes@[ls.0 as int].edges@[ls.1 as int].child);
                    }
                }
                assert forall|i: int, j: int|
                    0 <= i < self.num_nodes() && 0 <= j < self.nodes@[i].edges@.len()
                    && (#[trigger] self.nodes@[i].edges@[j]).virtual_losses > 0
                    implies exists|k: int| 0 <= k < c + 1 && (#[trigger] jobs@[k]).has_step(i, j) by {
                    if jobs@[c as int].has_step(i, j) {
                        assert(0 <= c < c + 1 && jobs@[c as int].has_step(i, j));
                    } else {
                        assert(pre.nodes@[i].edges@[j].virtual_losses > 0);
                        let k = choose|k: int| 0 <= k < c && (#[trigger] old_jobs[k]).has_step(i, j);
                        assert(jobs@[k] == old_jobs[k]);
                        assert(0 <= k < c + 1 && jobs@[k].has_step(i, j));
                    }
                }
            }
            c += 1;
        }
        proof {
            if balanced(t0) {
                Self::lemma_balanced_same_but_vl(t0, *self);
            }
        }
        jobs
    }

    /// Apply one batch of leaf evaluations: expansion, backup and
    /// virtual-loss clearing for each job in order. Afterwards no edge in
    /// the tree keeps a virtual loss.
    pub fn apply_rollouts(&mut self, jobs: &Vec<Job>, evals: Vec<LeafEval>)
        requires
            old(self).wf(),
            jobs@.len() == evals@.len(),
            forall|k: int| 0 <= k < jobs@.len() ==> (#[trigger] jobs@[k]).job_wf(*old(self)),
            forall|k: int| 0 <= k < jobs@.len()
                ==> (#[trigger] jobs@[k]).steps@.len() < 0x1000_0000,
            forall|k: int| 0 <= k < evals@.len() ==> (#[trigger] evals@[k]).wf(),
            forall|k: int| 0 <= k < jobs@.len() ==> (!(#[trigger] jobs@[k]).at_edge
                ==> evals@[k].status != GameStatus::Ongoing),
            forall|i: int, j: int|
                0 <= i < old(self).num_nodes() && 0 <= j < old(self).nodes@[i].edges@.len()
                && (#[trigger] old(self).nodes@[i].edges@[j]).virtual_losses > 0
                ==> exists|k: int| 0 <= k < jobs@.len() && (#[trigger] jobs@[k]).has_step(i, j),
            forall|k: int| 0 <= k < jobs@.len() && (#[trigger] jobs@[k]).at_edge
                ==> old(self).nodes@[jobs@[k].spec_last_step().0 as int]
                    .edges@[jobs@[k].spec_last_step().1 as int].child is None,
            old(self).backups + jobs@.len() <= BACKUP_CAP,
            old(self).same_paths + jobs@.len() <= usize::MAX,
        ensures
            final(self).wf(),
            final(self).vl_clear(),
            tree_extends(*old(self), *final(self)),
            final(self).backups == old(self).backups + jobs@.len(),
            final(self).nodes@[0].n == old(self).nodes@[0].n + jobs@.len(),
            final(self).nodes@[0].sum_q == old(self).nodes@[0].sum_q
                + spec_root_q_delta(jobs@, evals@, jobs@.len() as int),
            final(self).num_nodes() == old(self).num_nodes()
                + spec_at_edge_count(jobs@, jobs@.len() as int)
                - spec_collisions(jobs@, jobs@.len() as int),
            final(self).same_paths == old(self).same_paths
                + spec_collisions(jobs@, jobs@.len() as int),
            final(self).depth >= old(self).depth,
            forall|k: int| 0 <= k < jobs@.len()
                ==> final(self).depth as int >= (#[trigger] jobs@[k]).spec_path_len(),
            final(self).depth == old(self).depth || exists|k: int|
                0 <= k < jobs@.len() && final(self).depth as int
                    == (#[trigger] jobs@[k]).spec_path_len(),
            balanced(*old(self)) && spec_collisions(jobs@, jobs@.len() as int) == 0
                ==> balanced(*final(self)),
    {
        let ghost t0 = *self;
        let ghost evals0 = evals@;
        let n = jobs.len();
        let mut evals = evals;
        let mut k: usize = 0;
        while k < n
            invariant
                t0.wf(),
                n == jobs@.len(),
                evals0.len() == n,
                forall|k2: int| 0 <= k2 < n ==> (#[trigger] jobs@[k2]).job_wf(t0),
                forall|k2: int| 0 <= k2 < n
                    ==> (#[trigger] jobs@[k2]).steps@.len() < 0x1000_0000,
                forall|k2: int| 0 <= k2 < n ==> (#[trigger] evals0[k2]).wf(),
                forall|k2: int| 0 <= k2 < n ==> (!(#[trigger] jobs@[k2]).at_edge
                    ==> evals0[k2].status != GameStatus::Ongoing),
                t0.backups + n <= BACKUP_CAP,
                t0.same_paths + n <= usize::MAX,
                forall|k2: int| 0 <= k2 < n && (#[trigger] jobs@[k2]).at_edge
                    ==> t0.nodes@[jobs@[k2].spec_last_step().0 as int]
                        .edges@[jobs@[k2].spec_last_step().1 as int].child is None,
                k <= n,
                evals@ == evals0.subrange(k as int, n as int),
                self.wf(),
                tree_extends(t0, *self),
                self.backups == t0.backups + k,
                0 <= spec_collisions(jobs@, k as int) <= k,
                self.same_paths == t0.same_paths + spec_collisions(jobs@, k as int),
                self.nodes@[0].n == t0.nodes@[0].n + k,
                self.nodes@[0].sum_q == t0.nodes@[0].sum_q
                    + spec_root_q_delta(jobs@, evals0, k as int),
                self.nodes@.len() == t0.nodes@.len() + spec_at_edge_count(jobs@, k as int)
                    - spec_collisions(jobs@, k as int),
                self.depth >= t0.depth,
                forall|k2: int| 0 <= k2 < k
                    ==> self.depth as int >= (#[trigger] jobs@[k2]).spec_path_len(),
                self.depth == t0.depth || exists|k2: int|
                    0 <= k2 < k && self.depth as int == (#[trigger] jobs@[k2]).spec_path_len(),
                forall|i: int, j: int|
                    0 <= i < t0.num_nodes() && 0 <= j < t0.nodes@[i].edges@.len()
                        ==> ((#[trigger] self.nodes@[i].edges@[j]).child is Some <==>
                            (t0.nodes@[i].edges@[j].child is Some || exists|k2: int|
                                0 <= k2 < k && (#[trigger] jobs@[k2]).at_edge
                                    && jobs@[k2].spec_last_step().0 as int == i
                                    && jobs@[k2].spec_last_step().1 as int == j)),
                forall|k2: int| k <= k2 < n ==> (#[trigger] jobs@[k2]).job_wf(*self),
                forall|i: int, j: int|
                    0 <= i < self.num_nodes() && 0 <= j < self.nodes@[i].edges@.len()
                    && (#[trigger] self.nodes@[i].edges@[j]).virtual_losses > 0
                    ==> exists|k2: int| k <= k2 < n && (#[trigger] jobs@[k2]).has_step(i, j),
                balanced(t0) && spec_collisions(jobs@, k as int) == 0 ==> balanced(*self),
            decreases n - k,
        {
            let ghost pre = *self;
            let ev = evals.remove(0);
            let ghost evg = ev;
            proof {
                assert(ev == evals0[k as int]);
                assert(evals@ =~= evals0.subrange(k + 1, n as int));
            }
            self.apply_rollout(&jobs[k], ev);
            proof {
                assert forall|k2: int| k + 1 <= k2 < n implies (#[trigger] jobs@[k2]).job_wf(*self) by {
                    lemma_job_wf_extends(jobs@[k2], pre, *self);
                }
                assert forall|i: int, j: int|
                    0 <= i < self.num_nodes() && 0 <= j < self.nodes@[i].edges@.len()
                    && (#[trigger] self.nodes@[i].edges@[j]).virtual_losses > 0
                    implies exists|k2: int| k + 1 <= k2 < n
                        && (#[trigger] jobs@[k2]).has_step(i, j) by {
                    assert(0 <= i < pre.num_nodes());
                    assert(pre.nodes@[i].edges@[j].virtual_losses > 0);
                    assert(!jobs@[k as int].has_step(i, j));
                    let k2 = choose|k2: int| k <= k2 < n && (#[trigger] jobs@[k2]).has_step(i, j);
                    assert(k2 != k);
                }
                lemma_extends_trans(t0, pre, *self);

                // Every backup path starts at the root, so the root gains
                // one visit per job, and the job's parity value at path
                // position 0.
                let pth = jobs@[k as int].spec_node_path(pre);
                assert(pth.len() > 0);
                assert(pth[0] == 0) by {
                    if jobs@[k as int].steps@.len() > 0 {
                        assert(jobs@[k as int].steps@[0].0 == 0);
                    }
                }
                assert(self.nodes@[0].n == pre.nodes@[0].n + 1);
                assert(pth.len() == jobs@[k as int].spec_path_len());
                assert(self.nodes@[0].sum_q == pre.nodes@[0].sum_q + spec_backup_add(
                    jobs@[k as int].at_edge,
                    spec_value_to_q(spec_leaf_value(evals0[k as int].status,
                        evals0[k as int].value_milli as int)),
                    jobs@[k as int].spec_path_len(), 0));
                assert(spec_root_q_delta(jobs@, evals0, k + 1)
                    == spec_root_q_delta(jobs@, evals0, k as int) + spec_backup_add(
                        jobs@[k as int].at_edge,
                        spec_value_to_q(spec_leaf_value(evals0[k as int].status,
                            evals0[k as int].value_milli as int)),
                        jobs@[k as int].spec_path_len(), 0));
                assert(spec_at_edge_count(jobs@, k + 1) == spec_at_edge_count(jobs@, k as int)
                    + (if jobs@[k as int].at_edge { 1int } else { 0int }));

                // Collision accounting: the job collides exactly when an
                // earlier twin of the batch expanded its leaf edge.
                assert(spec_collisions(jobs@, k + 1) == spec_collisions(jobs@, k as int)
                    + (if spec_collided(jobs@, k as int) { 1int } else { 0int }));
                if jobs@[k as int].at_edge {
                    let ls = jobs@[k as int].spec_last_step();
                    assert(jobs@[k as int].job_wf(t0));
                    assert(jobs@[k as int].steps@.len() >= 1);
                    assert((ls.0 as int) < t0.num_nodes()
                        && (ls.1 as int) < t0.nodes@[ls.0 as int].edges@.len());
                    assert(!(t0.nodes@[ls.0 as int].edges@[ls.1 as int].child is Some));
                    assert(pre.nodes@[ls.0 as int].edges@[ls.1 as int].child is Some
                        <==> spec_collided(jobs@, k as int)) by {
                        if pre.nodes@[ls.0 as int].edges@[ls.1 as int].child is Some {
                            let k2 = choose|k2: int| 0 <= k2 < k && (#[trigger] jobs@[k2]).at_edge
                                && jobs@[k2].spec_last_step().0 as int == ls.0 as int
                                && jobs@[k2].spec_last_step().1 as int == ls.1 as int;
                            assert(jobs@[k2].spec_last_step() == ls);
                        }
                        if spec_collided(jobs@, k as int) {
                            let k2 = choose|k2: int| 0 <= k2 < k && (#[trigger] jobs@[k2]).at_edge
                                && jobs@[k2].spec_last_step() == ls;
                        }
                    }
                } else {
                    assert(!spec_collided(jobs@, k as int));
                }

                // Children appear only at the batch's own fresh leaf edges.
                assert forall|i: int, j: int|
                    0 <= i < t0.num_nodes() && 0 <= j < t0.nodes@[i].edges@.len()
                    implies ((#[trigger] self.nodes@[i].edges@[j]).child is Some <==>
                        (t0.nodes@[i].edges@[j].child is Some || exists|k2: int|
                            0 <= k2 < k + 1 && (#[trigger] jobs@[k2]).at_edge
                                && jobs@[k2].spec_last_step().0 as int == i
                                && jobs@[k2].spec_last_step().1 as int == j)) by {
                    let jb = jobs@[k as int];
                    assert(0 <= i < pre.num_nodes()
                        && 0 <= j < pre.nodes@[i].edges@.len());
                    if self.nodes@[i].edges@[j].child is Some {
                        if pre.nodes@[i].edges@[j].child is Some {
                            if !(t0.nodes@[i].edges@[j].child is Some) {
                                let k2 = choose|k2: int|
                                    0 <= k2 < k && (#[trigger] jobs@[k2]).at_edge
                                        && jobs@[k2].spec_last_step().0 as int == i
                                        && jobs@[k2].spec_last_step().1 as int == j;
                                assert(0 <= k2 < k + 1 && jobs@[k2].at_edge
                                    && jobs@[k2].spec_last_step().0 as int == i
                                    && jobs@[k2].spec_last_step().1 as int == j);
                            }
                        } else {
                            assert(jb.at_edge && jb.spec_last_step().0 as int == i
                                && jb.spec_last_step().1 as int == j);
                            assert(0 <= k < k + 1);
                        }
                    } else {
                        assert(!(pre.nodes@[i].edges@[j].child is Some));
                        if exists|k2: int| 0 <= k2 < k + 1 && (#[trigger] jobs@[k2]).at_edge
                            && jobs@[k2].spec_last_step().0 as int == i
                            && jobs@[k2].spec_last_step().1 as int == j {
                            let k2 = choose|k2: int|
                                0 <= k2 < k + 1 && (#[trigger] jobs@[k2]).at_edge
                                    && jobs@[k2].spec_last_step().0 as int == i
                                    && jobs@[k2].spec_last_step().1 as int == j;
                            if k2 < k {
                                assert(pre.nodes@[i].edges@[j].child is Some);
                            } else {
                                assert(k2 == k);
                                assert(jb.at_edge && jb.spec_last_step().0 as int == i
                                    && jb.spec_last_step().1 as int == j);
                                assert(!(pre.nodes@[jb.spec_last_step().0 as int]
                                    .edges@[jb.spec_last_step().1 as int].child is Some));
                                assert(self.nodes@[i].edges@[j].child is Some);
                            }
                            assert(false);
                        }
                    }
                }

                // The visit balance survives a collision-free batch.
                if balanced(t0) && spec_collisions(jobs@, k + 1) == 0 {
                    broadcast use vstd::std_specs::vec::axiom_spec_len;

                    assert(spec_collisions(jobs@, k as int) == 0);
                    assert(!spec_collided(jobs@, k as int));
                    assert(balanced(pre));
                    let jb = jobs@[k as int];
                    assert forall|i: int, j: int|
                        0 <= i < pre.num_nodes() && 0 <= j < pre.nodes@[i].edges@.len()
                        && !(jb.at_edge && i == jb.spec_last_step().0 as int
                            && j == jb.spec_last_step().1 as int)
                        implies (#[trigger] self.nodes@[i].edges@[j]).child
                            == pre.nodes@[i].edges@[j].child by {
                        if !(pre.nodes@[i].edges@[j].child is Some) {
                            assert(!(self.nodes@[i].edges@[j].child is Some));
                        }
                    }
                    if jb.at_edge {
                        let ls = jb.spec_last_step();
                        assert(!(pre.nodes@[ls.0 as int].edges@[ls.1 as int].child is Some));
                        assert(spec_vec_len(&pre.nodes) == pre.nodes@.len());
                        assert(pre.nodes@.len() <= usize::MAX);
                        assert(self.nodes@[ls.0 as int].edges@[ls.1 as int].child
                            == Some(pre.nodes@.len() as usize));
                        assert(self.nodes@[ls.0 as int].edges@[ls.1 as int].child->Some_0 as int
                            == pre.num_nodes());
                        assert(self.nodes@[pre.num_nodes()].n == 1);
                        assert(self.nodes@.len() == pre.nodes@.len() + 1);
                        let s = choose|s: Seq<(Move, u64)>|
                            s.to_multiset() == evg.priors@.to_multiset() && sorted_desc(s)
                                && #[trigger] edges_match_sorted(
                                    self.nodes@[pre.num_nodes()].edges@, s, sum_raw(s));
                        assert forall|j: int|
                            0 <= j < self.nodes@[pre.num_nodes() as int].edges@.len()
                            implies !((#[trigger] self.nodes@[pre.num_nodes() as int].edges@[j])
                                .child is Some) by {
                            assert(self.nodes@[pre.num_nodes() as int].edges@[j] == (Edge {
                                mov: s[j].0,
                                p: normalized_prior(s[j].1 as int, sum_raw(s)) as u64,
                                child: None,
                                virtual_losses: 0,
                            }));
                        }
                    } else {
                        assert(self.nodes@.len() == pre.nodes@.len());
                    }
                    Root::lemma_rollout_preserves_balance(pre, *self, jb);
                }
            }
            k += 1;
        }
        proof {
            assert forall|i: int, j: int|
                0 <= i < self.num_nodes() && 0 <= j < self.nodes@[i].edges@.len()
                implies (#[trigger] self.nodes@[i].edges@[j]).virtual_losses == 0 by {
                if self.nodes@[i].edges@[j].virtual_losses > 0 {
                    let k2 = choose|k2: int| n <= k2 < n && (#[trigger] jobs@[k2]).has_step(i, j);
                }
            }
        }
    }

    /// Every node's accumulated value lies between 0 and its visit count:
    /// the mean value of any node is a probability.
    pub proof fn lemma_node_value_bounded(self, i: int)
        requires
            self.wf(),
            0 <= i < self.num_nodes(),
        ensures
            0 <= self.nodes@[i].sum_q,
            self.nodes@[i].sum_q <= self.nodes@[i].n * Q_SCALE,
            1 <= self.nodes@[i].n,
    {
        assert(self.node_ok(i));
    }
}

/// One descent of the tree: the node visited and the edge chosen at each
/// step, whether the walk stopped at an unexpanded edge (else it ended in
/// a terminal node), and the moves of the chosen edges in order.
pub struct Job {
    pub steps: Vec<(usize, usize)>,
    pub at_edge: bool,
    pub moves: Vec<Move>,
}

impl Job {
    pub fn new() -> (job: Job)
        ensures
            job.steps@.len() == 0,
            job.moves@.len() == 0,
            !job.at_edge,
    {
        Job { steps: Vec::new(), at_edge: false, moves: Vec::new() }
    }

    /// Step `(i, j)` lies on this job's path.
    pub open spec fn has_step(self, i: int, j: int) -> bool {
        exists|k: int|
            0 <= k < self.steps@.len() && (#[trigger] self.steps@[k]).0 == i
                && self.steps@[k].1 == j
    }

    /// The job describes a real path of the tree: in-bounds steps starting
    /// at the root, each step's edge leading to the next step's node, and
    /// the recorded ending consistent with the tree.
    pub open spec fn job_wf(self, t: Root) -> bool {
        let s = self.steps@;
        &&& self.moves@.len() == s.len()
        &&& forall|k: int| 0 <= k < s.len() ==> {
                &&& ((#[trigger] s[k]).0 as int) < t.num_nodes()
                &&& (s[k].1 as int) < t.nodes@[s[k].0 as int].edges@.len()
            }
        &&& (s.len() > 0 ==> s[0].0 == 0)
        &&& forall|k: int| 0 <= k < s.len() - 1 ==>
                (#[trigger] t.nodes@[s[k].0 as int].edges@[s[k].1 as int]).child
                    == Some(s[k + 1].0)
        &&& (self.at_edge ==> s.len() >= 1)
        &&& (!self.at_edge && s.len() > 0 ==> match t.nodes@[s[s.len() - 1].0 as int]
                .edges@[s[s.len() - 1].1 as int].child {
                Some(c) => t.nodes@[c as int].edges@.len() == 0,
                None => false,
            })
        &&& (!self.at_edge && s.len() == 0 ==> t.nodes@[0].edges@.len() == 0)
    }

    /// The last step of the descent: the edge the job stopped at or
    /// walked into the terminal leaf through.
    pub open spec fn spec_last_step(self) -> (usize, usize) {
        self.steps@[self.steps@.len() - 1]
    }

    /// Number of nodes the backup visits: the steps' nodes, plus the
    /// terminal leaf's own node when the descent ended inside one.
    pub open spec fn spec_path_len(self) -> int {
        if self.at_edge {
            self.steps@.len() as int
        } else {
            self.steps@.len() as int + 1
        }
    }

    /// Node indices the backup walks, from the root down to the leaf.
    pub open spec fn spec_node_path(self, t: Root) -> Seq<int> {
        let base = Seq::new(self.steps@.len() as nat, |k: int| self.steps@[k].0 as int);
        if self.at_edge {
            base
        } else if self.steps@.len() == 0 {
            seq![0int]
        } else {
            base.push(t.nodes@[self.steps@[self.steps@.len() - 1].0 as int]
                .edges@[self.steps@[self.steps@.len() - 1].1 as int].child->Some_0 as int)
        }
    }
}

/// Job `k` of a batch collides: it stopped at the same unexpanded edge
/// as an earlier job of the same batch, which expands it first; the later
/// job still backs up and clears its losses but installs nothing.
pub open spec fn spec_collided(jobs: Seq<Job>, k: int) -> bool {
    jobs[k].at_edge && exists|j: int|
        0 <= j < k && (#[trigger] jobs[j]).at_edge
            && jobs[j].spec_last_step() == jobs[k].spec_last_step()
}

/// How many of the first `upto` jobs of a batch collide.
pub open spec fn spec_collisions(jobs: Seq<Job>, upto: int) -> int
    decreases upto,
{
    if upto <= 0 {
        0
    } else {
        spec_collisions(jobs, upto - 1) + if spec_collided(jobs, upto - 1) { 1int } else { 0int }
    }
}

/// How many of the first `upto` jobs of a batch stopped at an unexpanded
/// edge: each of them either appends one node or collides with a twin.
pub open spec fn spec_at_edge_count(jobs: Seq<Job>, upto: int) -> int
    decreases upto,
{
    if upto <= 0 {
        0
    } else {
        spec_at_edge_count(jobs, upto - 1) + if jobs[upto - 1].at_edge { 1int } else { 0int }
    }
}

/// What the first `upto` backups of a batch add to the root's accumulated
/// value: each job contributes its parity-alternated leaf value at path
/// position 0.
pub open spec fn spec_root_q_delta(jobs: Seq<Job>, evals: Seq<LeafEval>, upto: int) -> int
    decreases upto,
{
    if upto <= 0 {
        0
    } else {
        spec_root_q_delta(jobs, evals, upto - 1) + spec_backup_add(
            jobs[upto - 1].at_edge,
            spec_value_to_q(spec_leaf_value(evals[upto - 1].status,
                evals[upto - 1].value_milli as int)),
            jobs[upto - 1].spec_path_len(),
            0,
        )
    }
}

/// Sum of the children's visit counts over the first `upto` edges of an
/// edge list, read in tree `t`.
pub open spec fn edges_child_n_sum(t: Root, edges: Seq<Edge>, upto: int) -> int
    decreases upto,
{
    if upto <= 0 {
        0
    } else {
        edges_child_n_sum(t, edges, upto - 1) + match edges[upto - 1].child {
            Some(c) => t.nodes@[c as int].n as int,
            None => 0,
        }
    }
}

/// The visit-balance equation at one node: a node with edges counts its
/// own creation visit plus its children's visits. With every virtual loss
/// cleared, an edge's apparent count is exactly its child's count, so
/// this says `n == 1 + sum of the edges' counts`. Edge-less terminal
/// nodes are exempt: they re-accumulate visits with no children.
pub open spec fn node_balanced(t: Root, i: int) -> bool {
    t.nodes@[i].edges@.len() > 0 ==> t.nodes@[i].n as int
        == 1 + edges_child_n_sum(t, t.nodes@[i].edges@, t.nodes@[i].edges@.len() as int)
}

/// Every node of the tree satisfies the visit-balance equation.
pub open spec fn balanced(t: Root) -> bool {
    forall|i: int| 0 <= i < t.num_nodes() ==> #[trigger] node_balanced(t, i)
}

/// The child sum is unchanged between two trees whose edges keep their
/// children and whose referenced children keep their counts.
proof fn lemma_child_sum_same(t0: Root, tf: Root, e0: Seq<Edge>, ef: Seq<Edge>, upto: int)
    requires
        e0.len() == ef.len(),
        0 <= upto <= e0.len(),
        forall|j: int| 0 <= j < upto ==> (#[trigger] ef[j]).child == e0[j].child,
        forall|j: int| 0 <= j < upto && (#[trigger] e0[j]).child is Some
            ==> tf.nodes@[e0[j].child->Some_0 as int].n == t0.nodes@[e0[j].child->Some_0 as int].n,
    ensures
        edges_child_n_sum(tf, ef, upto) == edges_child_n_sum(t0, e0, upto),
    decreases upto,
{
    if upto > 0 {
        lemma_child_sum_same(t0, tf, e0, ef, upto - 1);
    }
}

/// The child sum grows by exactly one when a single edge's contribution
/// grows by one and every other edge keeps child and count.
proof fn lemma_child_sum_bump(t0: Root, tf: Root, e0: Seq<Edge>, ef: Seq<Edge>, upto: int, sj: int)
    requires
        e0.len() == ef.len(),
        0 <= upto <= e0.len(),
        0 <= sj < e0.len(),
        forall|j: int| 0 <= j < upto && j != sj ==> (#[trigger] ef[j]).child == e0[j].child,
        forall|j: int| 0 <= j < upto && j != sj && (#[trigger] e0[j]).child is Some
            ==> tf.nodes@[e0[j].child->Some_0 as int].n == t0.nodes@[e0[j].child->Some_0 as int].n,
        (match ef[sj].child {
            Some(c) => tf.nodes@[c as int].n as int,
            None => 0int,
        }) == (match e0[sj].child {
            Some(c) => t0.nodes@[c as int].n as int,
            None => 0int,
        }) + 1,
    ensures
        edges_child_n_sum(tf, ef, upto)
            == edges_child_n_sum(t0, e0, upto) + (if sj < upto { 1int } else { 0int }),
    decreases upto,
{
    if upto > 0 {
        lemma_child_sum_bump(t0, tf, e0, ef, upto - 1, sj);
    }
}

/// An edge list with no children contributes nothing.
proof fn lemma_child_sum_none(t: Root, edges: Seq<Edge>, upto: int)
    requires
        0 <= upto <= edges.len(),
        forall|j: int| 0 <= j < edges.len() ==> !((#[trigger] edges[j]).child is Some),
    ensures
        edges_child_n_sum(t, edges, upto) == 0,
    decreases upto,
{
    if upto > 0 {
        lemma_child_sum_none(t, edges, upto - 1);
    }
}

/// Leaf value by position status: a mated side scores −1, a stalemate 0,
/// an ongoing position whatever the evaluator returned (milli-units).
pub open spec fn spec_leaf_value(status: GameStatus, value_milli: int) -> int {
    match status {
        GameStatus::Checkmate => -(Q_SCALE as int),
        GameStatus::Stalemate => 0,
        GameStatus::Ongoing => value_milli,
    }
}

/// Map a value in [−1, 1] to [0, 1]: `q = v / 2 + 1/2`, in milli-units.
pub open spec fn spec_value_to_q(v: int) -> int {
    (v + Q_SCALE) / 2
}

/// What backup adds to the node at position `idx` of a backup path of
/// length `len`: the leaf's own node takes the leaf value and each step
/// toward the root flips it, encoding the side-to-move alternation. When
/// the path ends at a freshly evaluated edge, the last node on it is the
/// edge's parent, which sees the value already flipped once.
pub open spec fn spec_backup_add(at_edge: bool, q_leaf: int, len: int, idx: int) -> int {
    let leaf_val = if at_edge { Q_SCALE - q_leaf } else { q_leaf };
    if (len - 1 - idx) % 2 == 0 {
        leaf_val
    } else {
        Q_SCALE - leaf_val
    }
}

/// Outcome of evaluating one leaf: the status of the leaf position and,
/// when it is ongoing, the evaluator's value (milli-units, side to move's
/// view) and the raw priors of the leaf's legal moves.
pub struct LeafEval {
    pub status: GameStatus,
    pub value_milli: i64,
    pub priors: Vec<(Move, u64)>,
}

impl LeafEval {
    pub open spec fn wf(self) -> bool {
        &&& -1000 <= self.value_milli <= 1000
        &&& self.priors@.len() <= 0x10000
        &&& forall|i: int| 0 <= i < self.priors@.len()
                ==> (#[trigger] self.priors@[i]).1 <= 0x1_0000_0000
        &&& forall|i: int| 0 <= i < self.priors@.len()
                ==> (#[trigger] self.priors@[i]).0.wf()
    }
}

/// `b` has everything `a` has: same prefix of nodes with the same moves,
/// priors and edge counts, and every child link of `a` intact. New nodes
/// and newly filled child links may appear in `b`.
pub open spec fn tree_extends(a: Root, b: Root) -> bool {
    &&& a.num_nodes() <= b.num_nodes()
    &&& forall|i: int| 0 <= i < a.num_nodes()
            ==> (#[trigger] b.nodes@[i]).edges@.len() == a.nodes@[i].edges@.len()
    &&& forall|i: int, j: int|
            0 <= i < a.num_nodes() && 0 <= j < a.nodes@[i].edges@.len() ==> {
                let ea = a.nodes@[i].edges@[j];
                let eb = #[trigger] b.nodes@[i].edges@[j];
                &&& eb.mov == ea.mov
                &&& eb.p == ea.p
                &&& (ea.child is Some ==> eb.child == ea.child)
            }
}

pub proof fn lemma_extends_refl(a: Root)
    ensures
        tree_extends(a, a),
{
}

/// A tree equal node-for-node to an extension is itself an extension.
pub proof fn lemma_extends_same_nodes(a: Root, b: Root, c: Root)
    requires
        tree_extends(a, b),
        c.nodes@ == b.nodes@,
    ensures
        tree_extends(a, c),
{
    assert forall|i: int| 0 <= i < a.num_nodes() implies
        (#[trigger] c.nodes@[i]).edges@.len() == a.nodes@[i].edges@.len() by {
        assert(c.nodes@[i] == b.nodes@[i]);
    }
    assert forall|i: int, j: int|
        0 <= i < a.num_nodes() && 0 <= j < a.nodes@[i].edges@.len() implies {
            let ea = a.nodes@[i].edges@[j];
            let ec = #[trigger] c.nodes@[i].edges@[j];
            &&& ec.mov == ea.mov
            &&& ec.p == ea.p
            &&& (ea.child is Some ==> ec.child == ea.child)
        } by {
        assert(c.nodes@[i] == b.nodes@[i]);
        assert(b.nodes@[i].edges@[j].mov == a.nodes@[i].edges@[j].mov);
    }
}

pub proof fn lemma_extends_trans(a: Root, b: Root, c: Root)
    requires
        tree_extends(a, b),
        tree_extends(b, c),
    ensures
        tree_extends(a, c),
{
    assert forall|i: int, j: int|
        0 <= i < a.num_nodes() && 0 <= j < a.nodes@[i].edges@.len() implies {
            let ea = a.nodes@[i].edges@[j];
            let ec = #[trigger] c.nodes@[i].edges@[j];
            ec.mov == ea.mov && ec.p == ea.p && (ea.child is Some ==> ec.child == ea.child)
        } by {
        assert(b.nodes@[i].edges@.len() == a.nodes@[i].edges@.len());
    }
}

/// A job that describes a path of `a` still describes it in any tree that
/// extends `a`: children only get filled in, never change or vanish.
pub proof fn lemma_job_wf_extends(job: Job, a: Root, b: Root)
    requires
        a.wf(),
        job.job_wf(a),
        tree_extends(a, b),
    ensures
        job.job_wf(b),
{
    let s = job.steps@;
    assert forall|k: int| 0 <= k < s.len() implies {
        &&& ((#[trigger] s[k]).0 as int) < b.num_nodes()
        &&& (s[k].1 as int) < b.nodes@[s[k].0 as int].edges@.len()
    } by {
        assert(b.nodes@[s[k].0 as int].edges@.len() == a.nodes@[s[k].0 as int].edges@.len());
    }
    assert forall|k: int| 0 <= k < s.len() - 1 implies
        (#[trigger] b.nodes@[s[k].0 as int].edges@[s[k].1 as int]).child == Some(s[k + 1].0) by {
        assert(a.nodes@[s[k].0 as int].edges@[s[k].1 as int].child == Some(s[k + 1].0));
    }
    if !job.at_edge && s.len() > 0 {
        let last = s[s.len() - 1];
        let c = a.nodes@[last.0 as int].edges@[last.1 as int].child->Some_0;
        assert(a.nodes@[last.0 as int].edges@[last.1 as int].child is Some);
        assert(a.node_ok(last.0 as int));
        assert(a.edge_ok(last.0 as int, last.1 as int));
        assert(0 <= c < a.num_nodes());
        assert(b.nodes@[last.0 as int].edges@[last.1 as int].child == Some(c));
        assert(b.nodes@[c as int].edges@.len() == a.nodes@[c as int].edges@.len());
    }
    if !job.at_edge && s.len() == 0 {
        assert(b.nodes@[0].edges@.len() == a.nodes@[0].edges@.len());
    }
}

impl Root {
    /// Build a tree whose root node holds the evaluation of the root
    /// position: the value in milli-units from the side to move's view and
    /// the raw priors of the root's legal moves, exactly as `Node::new`
    /// shapes them.
    pub fn new(value_milli: i64, probabilities: Vec<(Move, u64)>) -> (t: Root)
        requires
            -1000 <= value_milli <= 1000,
            probabilities@.len() <= 0x10000,
            forall|i: int| 0 <= i < probabilities@.len()
                ==> (#[trigger] probabilities@[i]).1 <= 0x1_0000_0000,
            forall|i: int| 0 <= i < probabilities@.len()
                ==> (#[trigger] probabilities@[i]).0.wf(),
        ensures
            t.wf(),
            t.vl_clear(),
            t.num_nodes() == 1,
            t.depth == 0,
            t.same_paths == 0,
            t.backups == 0,
            t.nodes@[0].n == 1,
            t.nodes@[0].sum_q == spec_value_to_q(value_milli as int),
            t.nodes@[0].edges@.len() == probabilities@.len(),
            forall|j: int| 0 <= j < t.nodes@[0].edges@.len()
                ==> (#[trigger] t.nodes@[0].edges@[j]).child is None,
            exists|s: Seq<(Move, u64)>|
                s.to_multiset() == probabilities@.to_multiset()
                && sorted_desc(s)
                && #[trigger] edges_match_sorted(t.nodes@[0].edges@, s, sum_raw(s)),
            balanced(t),
    {
        let q = ((value_milli + 1000) / 2) as u64;
        let node = Node::new(q, probabilities);
        let mut nodes: Vec<Node> = Vec::new();
        nodes.push(node);
        let t = Root { nodes, depth: 0, same_paths: 0, backups: 0 };
        proof {
            assert(t.node_ok(0));
            assert forall|i: int| 0 <= i < t.num_nodes() implies #[trigger] node_balanced(t, i) by {
                lemma_child_sum_none(t, t.nodes@[0].edges@, t.nodes@[0].edges@.len() as int);
            }
        }
        t
    }

    /// The root position's node.
    pub fn root_node(&self) -> (r: &Node)
        requires
            self.num_nodes() >= 1,
        ensures
            *r == self.nodes@[0],
    {
        &self.nodes[0]
    }

    /// Headroom on every virtual-loss counter.
    pub open spec fn vl_below(self, cap: int) -> bool {
        forall|i: int, j: int|
            0 <= i < self.num_nodes() && 0 <= j < self.nodes@[i].edges@.len()
                ==> ((#[trigger] self.nodes@[i].edges@[j]).virtual_losses as int) < cap
    }

    /// Changing virtual-loss counters alone, within their cap, preserves
    /// well-formedness.
    pub proof fn lemma_wf_same_but_vl(a: Root, b: Root)
        requires
            a.wf(),
            Self::same_but_vl(a, b),
            forall|i: int, j: int|
                0 <= i < b.num_nodes() && 0 <= j < b.nodes@[i].edges@.len()
                    ==> ((#[trigger] b.nodes@[i].edges@[j]).virtual_losses as int) <= VL_CAP,
        ensures
            b.wf(),
    {
        assert forall|i: int| 0 <= i < b.num_nodes() implies #[trigger] b.node_ok(i) by {
            assert(a.node_ok(i));
            assert(b.nodes@[i].n == a.nodes@[i].n);
            assert(b.nodes@[i].sum_q == a.nodes@[i].sum_q);
            assert forall|j: int| 0 <= j < b.nodes@[i].edges@.len() implies b.edge_ok(i, j)
                && (#[trigger] b.nodes@[i].edges@[j]).p <= Q_SCALE by {
                assert(a.edge_ok(i, j));
                assert(b.nodes@[i].edges@[j].child == a.nodes@[i].edges@[j].child);
                assert(b.nodes@[i].edges@[j].p == a.nodes@[i].edges@[j].p);
            }
        }
        assert forall|i1: int, j1: int, i2: int, j2: int|
            0 <= i1 < b.num_nodes() && 0 <= j1 < b.nodes@[i1].edges@.len()
            && 0 <= i2 < b.num_nodes() && 0 <= j2 < b.nodes@[i2].edges@.len()
            && !(i1 == i2 && j1 == j2)
            && (#[trigger] b.nodes@[i1].edges@[j1]).child is Some
            && (#[trigger] b.nodes@[i2].edges@[j2]).child is Some
            implies b.nodes@[i1].edges@[j1].child != b.nodes@[i2].edges@[j2].child by {
            assert(b.nodes@[i1].edges@[j1].child == a.nodes@[i1].edges@[j1].child);
            assert(b.nodes@[i2].edges@[j2].child == a.nodes@[i2].edges@[j2].child);
        }
    }

    /// Virtual-loss changes never disturb the visit balance: the equation
    /// reads only visit counts and child links.
    pub proof fn lemma_balanced_same_but_vl(a: Root, b: Root)
        requires
            a.wf(),
            Self::same_but_vl(a, b),
            balanced(a),
        ensures
            balanced(b),
    {
        assert forall|i: int| 0 <= i < b.num_nodes() implies #[trigger] node_balanced(b, i) by {
            assert(node_balanced(a, i));
            assert(a.node_ok(i));
            assert forall|j: int|
                0 <= j < a.nodes@[i].edges@.len()
                && (#[trigger] a.nodes@[i].edges@[j]).child is Some
                implies b.nodes@[a.nodes@[i].edges@[j].child->Some_0 as int].n
                    == a.nodes@[a.nodes@[i].edges@[j].child->Some_0 as int].n by {
                assert(a.edge_ok(i, j));
            }
            lemma_child_sum_same(a, b, a.nodes@[i].edges@, b.nodes@[i].edges@,
                a.nodes@[i].edges@.len() as int);
        }
    }

    /// Add one virtual loss to edge `(i, j)`; nothing else changes.
    fn add_vl(&mut self, i: usize, j: usize)
        requires
            old(self).wf(),
            (i as int) < old(self).num_nodes(),
            (j as int) < old(self).nodes@[i as int].edges@.len(),
            (old(self).nodes@[i as int].edges@[j as int].virtual_losses as int) < VL_CAP,
        ensures
            final(self).wf(),
            Self::same_but_vl(*old(self), *final(self)),
            final(self).nodes@[i as int].edges@[j as int].virtual_losses
                == old(self).nodes@[i as int].edges@[j as int].virtual_losses + 1,
            forall|i2: int, j2: int|
                0 <= i2 < old(self).num_nodes() && 0 <= j2 < old(self).nodes@[i2].edges@.len()
                && !(i2 == i && j2 == j)
                ==> (#[trigger] final(self).nodes@[i2].edges@[j2]).virtual_losses
                    == old(self).nodes@[i2].edges@[j2].virtual_losses,
    {
        proof {
            assert(old(self).node_ok(i as int));
            assert(old(self).edge_ok(i as int, j as int));
        }
        let mut e = self.nodes[i].edges[j];
        e.virtual_losses = e.virtual_losses + 1;
        self.nodes[i].edges.set(j, e);
        proof {
            assert forall|i2: int, j2: int|
                0 <= i2 < self.num_nodes() && 0 <= j2 < self.nodes@[i2].edges@.len()
                implies ((#[trigger] self.nodes@[i2].edges@[j2]).virtual_losses as int) <= VL_CAP by {
                assert(old(self).node_ok(i2));
                assert(old(self).edge_ok(i2, j2));
            }
            Self::lemma_wf_same_but_vl(*old(self), *self);
        }
    }

    /// Clear the virtual losses of edge `(i, j)`; nothing else changes.
    fn clear_vl(&mut self, i: usize, j: usize)
        requires
            old(self).wf(),
            (i as int) < old(self).num_nodes(),
            (j as int) < old(self).nodes@[i as int].edges@.len(),
        ensures
            final(self).wf(),
            Self::same_but_vl(*old(self), *final(self)),
            final(self).nodes@[i as int].edges@[j as int].virtual_losses == 0,
            forall|i2: int, j2: int|
                0 <= i2 < old(self).num_nodes() && 0 <= j2 < old(self).nodes@[i2].edges@.len()
                && !(i2 == i && j2 == j)
                ==> (#[trigger] final(self).nodes@[i2].edges@[j2]).virtual_losses
                    == old(self).nodes@[i2].edges@[j2].virtual_losses,
            forall|i2: int| 0 <= i2 < old(self).num_nodes() && i2 != i
                ==> #[trigger] final(self).nodes@[i2] == old(self).nodes@[i2],
            final(self).nodes@[i as int].n == old(self).nodes@[i as int].n,
            final(self).nodes@[i as int].sum_q == old(self).nodes@[i as int].sum_q,
            final(self).nodes@[i as int].edges@ == old(self).nodes@[i as int].edges@
                .update(j as int, (Edge {
                    virtual_losses: 0,
                    ..old(self).nodes@[i as int].edges@[j as int]
                })),
    {
        proof {
            assert(old(self).node_ok(i as int));
            assert(old(self).edge_ok(i as int, j as int));
        }
        let mut e = self.nodes[i].edges[j];
        e.virtual_losses = 0;
        self.nodes[i].edges.set(j, e);
        proof {
            assert forall|i2: int, j2: int|
                0 <= i2 < self.num_nodes() && 0 <= j2 < self.nodes@[i2].edges@.len()
                implies ((#[trigger] self.nodes@[i2].edges@[j2]).virtual_losses as int) <= VL_CAP by {
                assert(old(self).node_ok(i2));
                assert(old(self).edge_ok(i2, j2));
            }
            Self::lemma_wf_same_but_vl(*old(self), *self);
        }
    }

    /// `b` is `a` with, at most, different virtual-loss counters.
    pub open spec fn same_but_vl(a: Root, b: Root) -> bool {
        &&& b.nodes@.len() == a.nodes@.len()
        &&& b.depth == a.depth
        &&& b.same_paths == a.same_paths
        &&& b.backups == a.backups
        &&& forall|i: int| 0 <= i < a.num_nodes() ==> {
                &&& (#[trigger] b.nodes@[i]).n == a.nodes@[i].n
                &&& b.nodes@[i].sum_q == a.nodes@[i].sum_q
                &&& b.nodes@[i].edges@.len() == a.nodes@[i].edges@.len()
            }
        &&& forall|i: int, j: int|
                0 <= i < a.num_nodes() && 0 <= j < a.nodes@[i].edges@.len() ==> {
                    let ea = a.nodes@[i].edges@[j];
                    let eb = #[trigger] b.nodes@[i].edges@[j];
                    &&& eb.mov == ea.mov
                    &&& eb.p == ea.p
                    &&& eb.child == ea.child
                }
    }
}

} // verus!
