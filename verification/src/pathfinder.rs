//! A* shortest-path search over the elevation grid.
//!
//! The search keeps the classic bookkeeping: an open set of discovered but
//! unprocessed nodes, a `came_from` link per node, the cheapest known cost
//! `g` per node and the priority `f = g + heuristic`. The heuristic is the
//! Euclidean distance to the target, rounded to the nearest integer.
//!
//! The contract of [`Pathfinder::a_star`] pins down soundness and
//! completeness: a returned path really is a walk from start to end along
//! allowed edges, and `None` comes back only when no such walk exists.

use vstd::prelude::*;

use crate::heightmap::HeightMap;
use crate::heightmap::has_path;
use crate::heightmap::is_edge;
use crate::heightmap::is_path;
use crate::heightmap::lemma_nbr_bounds;
use crate::heightmap::nbr_seq;

verus! {

/// How many entries of the score table are filled in.
pub open spec fn num_set(s: Seq<Option<u64>>) -> int
    decreases s.len(),
{
    if s.len() == 0 {
        0
    } else {
        num_set(s.drop_last()) + if s.last() is Some {
            1int
        } else {
            0int
        }
    }
}

/// The value of one score entry, counting an absent entry as zero.
pub open spec fn val_of(o: Option<u64>) -> int {
    match o {
        Some(v) => v as int,
        None => 0,
    }
}

/// The sum of all filled-in scores.
pub open spec fn sum_vals(s: Seq<Option<u64>>) -> int
    decreases s.len(),
{
    if s.len() == 0 {
        0
    } else {
        sum_vals(s.drop_last()) + val_of(s.last())
    }
}

proof fn lemma_counts_nonneg(s: Seq<Option<u64>>)
    ensures
        0 <= num_set(s) <= s.len(),
        0 <= sum_vals(s),
    decreases s.len(),
{
    if s.len() > 0 {
        lemma_counts_nonneg(s.drop_last());
    }
}

proof fn lemma_counts_all_none(s: Seq<Option<u64>>)
    requires
        forall|i: int| 0 <= i < s.len() ==> (#[trigger] s[i]) is None,
    ensures
        num_set(s) == 0,
        sum_vals(s) == 0,
    decreases s.len(),
{
    if s.len() > 0 {
        assert(forall|i: int| 0 <= i < s.drop_last().len() ==> (#[trigger] s.drop_last()[i])
            is None);
        lemma_counts_all_none(s.drop_last());
    }
}

/// How one update to the score table moves the two counts.
proof fn lemma_counts_update(s: Seq<Option<u64>>, i: int, v: Option<u64>)
    requires
        0 <= i < s.len(),
    ensures
        num_set(s.update(i, v)) == num_set(s) + (if v is Some {
            1int
        } else {
            0int
        }) - (if s[i] is Some {
            1int
        } else {
            0int
        }),
        sum_vals(s.update(i, v)) == sum_vals(s) + val_of(v) - val_of(s[i]),
    decreases s.len(),
{
    let t = s.update(i, v);
    if i == s.len() - 1 {
        assert(t.drop_last() =~= s.drop_last());
        assert(t.last() == v);
    } else {
        assert(t.drop_last() =~= s.drop_last().update(i, v));
        assert(t.last() == s.last());
        lemma_counts_update(s.drop_last(), i, v);
    }
}

/// A rank that strictly decreases along every `came_from` link; its
/// existence makes following the links terminate.
pub open spec fn rank_ok(cf: Seq<Option<usize>>, rank: Seq<nat>) -> bool {
    &&& rank.len() == cf.len()
    &&& forall|v: int|
        0 <= v < cf.len() ==> ((#[trigger] cf[v]) matches Some(p) ==> 0 <= p < cf.len()
            && rank[p as int] < rank[v])
}

/// `r` is the Euclidean length of a vector of squared length `n`, rounded
/// to the nearest integer.
pub open spec fn is_rounded_sqrt(n: int, r: int) -> bool {
    (r == 0 && n == 0) || (r >= 1 && r * r - r < n <= r * r + r)
}

/// The squared Euclidean distance between node `idx` and the end node.
pub open spec fn heur_sq(m: HeightMap, idx: int) -> int {
    let dx = m.arena@[idx].x - m.arena@[m.end as int].x;
    let dy = m.arena@[idx].y - m.arena@[m.end as int].y;
    dx * dx + dy * dy
}

/// Round the square root of `n` to the nearest integer.
fn isqrt_round(n: u64) -> (r: u64)
    requires
        n <= 0x8000_0000_0000_0000,
    ensures
        is_rounded_sqrt(n as int, r as int),
{
    if n == 0 {
        return 0;
    }
    let mut r: u64 = 0;
    let mut sq: u64 = 0;
    while sq + 2 * r + 1 <= n
        invariant
            n <= 0x8000_0000_0000_0000,
            sq as int == r as int * r as int,
            sq <= n,
            r <= 0xB504_F333u64,
        decreases n - r,
    {
        sq = sq + 2 * r + 1;
        r = r + 1;
        proof {
            assert(sq as int == r as int * r as int) by (nonlinear_arith)
                requires sq as int == (r as int - 1) * (r as int - 1) + 2 * (r as int - 1) + 1;
            assert(r <= 0xB504_F333u64) by (nonlinear_arith)
                requires
                    r as int * r as int <= n as int,
                    n <= 0x8000_0000_0000_0000,
                    r >= 1;
        }
    }
    let rem = n - sq;
    proof {
        assert((r + 1) as int * (r + 1) as int > n as int) by (nonlinear_arith)
            requires
                sq as int == r as int * r as int,
                sq as int + 2 * r as int + 1 > n as int;
    }
    if rem > r {
        proof {
            assert(r >= 1) by (nonlinear_arith)
                requires
                    n as int - r as int * r as int > r as int,
                    n >= 1,
                    (r + 1) as int * (r + 1) as int > n as int,
                    r >= 0;
            assert(is_rounded_sqrt(n as int, r as int + 1)) by (nonlinear_arith)
                requires
                    n as int - r as int * r as int > r as int,
                    (r + 1) as int * (r + 1) as int > n as int,
                    r >= 1;
        }
        r + 1
    } else {
        proof {
            assert(r >= 1) by (nonlinear_arith)
                requires
                    r as int * r as int <= n as int,
                    (r + 1) as int * (r + 1) as int > n as int,
                    n >= 1,
                    r >= 0;
            assert(is_rounded_sqrt(n as int, r as int)) by (nonlinear_arith)
                requires
                    r as int * r as int <= n as int,
                    n as int - r as int * r as int <= r as int,
                    r >= 1;
        }
        r
    }
}

/// Does the vector hold the index?
fn vec_contains(v: &Vec<usize>, x: usize) -> (r: bool)
    ensures
        r == v@.contains(x),
{
    let mut i: usize = 0;
    while i < v.len()
        invariant
            i <= v.len(),
            forall|k: int| 0 <= k < i ==> v@[k] != x,
        decreases v.len() - i,
    {
        if v[i] == x {
            return true;
        }
        i = i + 1;
    }
    false
}

/// Removing position `i` from a duplicate-free sequence removes exactly the
/// element at `i`.
proof fn lemma_remove_nodup(s: Seq<usize>, i: int)
    requires
        0 <= i < s.len(),
        s.no_duplicates(),
    ensures
        s.remove(i).no_duplicates(),
        forall|x: usize| s.remove(i).contains(x) <==> (s.contains(x) && x != s[i]),
{
    let t = s.remove(i);
    assert forall|x: usize| t.contains(x) implies s.contains(x) && x != s[i] by {
        let k = choose|k: int| 0 <= k < t.len() && t[k] == x;
        if k < i {
            assert(s[k] == x);
        } else {
            assert(s[k + 1] == x);
        }
    }
    assert forall|x: usize| s.contains(x) && x != s[i] implies t.contains(x) by {
        let k = choose|k: int| 0 <= k < s.len() && s[k] == x;
        if k < i {
            assert(t[k] == x);
        } else {
            assert(k > i);
            assert(t[k - 1] == x);
        }
    }
}

/// Appending a fresh element keeps a sequence duplicate-free and adds
/// exactly that element.
proof fn lemma_push_nodup(s: Seq<usize>, x: usize)
    requires
        s.no_duplicates(),
        !s.contains(x),
    ensures
        s.push(x).no_duplicates(),
        forall|y: usize| s.push(x).contains(y) <==> (s.contains(y) || y == x),
{
    let t = s.push(x);
    assert forall|a: int, b: int| 0 <= a < b < t.len() implies t[a] != t[b] by {
        if b == t.len() - 1 {
            assert(t[a] == s[a]);
            if s[a] == x {
                assert(s.contains(x));
            }
        }
    }
    assert forall|y: usize| t.contains(y) implies (s.contains(y) || y == x) by {
        let k = choose|k: int| 0 <= k < t.len() && t[k] == y;
        if k < s.len() {
            assert(s[k] == y);
        }
    }
    assert forall|y: usize| s.contains(y) || y == x implies t.contains(y) by {
        if y == x {
            assert(t[t.len() - 1] == y);
        } else {
            let k = choose|k: int| 0 <= k < s.len() && s[k] == y;
            assert(t[k] == y);
        }
    }
}

/// The search state: the grid, the reconstruction links of the latest
/// search, and the node the search starts from.
pub struct Pathfinder {
    pub map: HeightMap,
    pub came_from: Vec<Option<usize>>,
    pub start: usize,
}

impl Pathfinder {
    pub open spec fn wf(self) -> bool {
        &&& self.map.wf()
        &&& self.start < self.map.arena.len()
    }

    /// Walk the `came_from` links back from `current` and return the chain
    /// in forward order, both endpoints included.
    pub fn reconstruct_path(&self, current: usize) -> (r: Vec<usize>)
        requires
            self.came_from.len() == self.map.arena.len(),
            current < self.map.arena.len(),
            exists|rank: Seq<nat>| rank_ok(self.came_from@, rank),
        ensures
            r@.len() >= 1,
            r@[r@.len() - 1] == current,
            r@[0] < self.came_from@.len(),
            self.came_from@[r@[0] as int] is None,
            forall|k: int|
                0 <= k < r@.len() ==> #[trigger] r@[k] < self.came_from@.len(),
            forall|k: int|
                0 <= k < r@.len() - 1 ==> self.came_from@[#[trigger] r@[k + 1] as int] == Some(
                    r@[k],
                ),
    {
        let ghost cf = self.came_from@;
        let ghost rank = choose|rank: Seq<nat>| rank_ok(cf, rank);
        let mut chain: Vec<usize> = Vec::new();
        chain.push(current);
        let mut cur = current;
        while self.came_from[cur].is_some()
            invariant
                cf == self.came_from@,
                cf.len() == self.map.arena.len(),
                rank_ok(cf, rank),
                cur < cf.len(),
                chain@.len() >= 1,
                chain@[0] == current,
                chain@[chain@.len() - 1] == cur,
                forall|k: int| 0 <= k < chain@.len() ==> #[trigger] chain@[k] < cf.len(),
                forall|k: int|
                    0 <= k < chain@.len() - 1 ==> cf[#[trigger] chain@[k] as int] == Some(
                        chain@[k + 1],
                    ),
            decreases rank[cur as int],
        {
            let parent = self.came_from[cur].unwrap();
            chain.push(parent);
            cur = parent;
        }
        // Reverse the chain so the path runs from the root to `current`.
        let mut path: Vec<usize> = Vec::new();
        let mut i = chain.len();
        while i > 0
            invariant
                i <= chain@.len(),
                path@.len() == chain@.len() - i,
                forall|k: int|
                    0 <= k < path@.len() ==> #[trigger] path@[k] == chain@[chain@.len() - 1 - k],
            decreases i,
        {
            i = i - 1;
            path.push(chain[i]);
        }
        proof {
            let l = chain@.len();
            assert(path@[0] == chain@[l - 1]);
            assert(path@[path@.len() - 1] == chain@[0]);
            assert forall|k: int| 0 <= k < path@.len() - 1 implies self.came_from@[
                #[trigger] path@[k + 1] as int] == Some(path@[k]) by {
                assert(path@[k + 1] == chain@[l - 2 - k]);
                assert(path@[k] == chain@[l - 1 - k]);
                assert(cf[chain@[l - 2 - k] as int] == Some(chain@[l - 1 - k]));
            }
        }
        path
    }

    /// The rounded Euclidean distance from `idx` to the end node.
    pub fn heuristic(&self, idx: usize) -> (r: u64)
        requires
            self.map.wf(),
            idx < self.map.arena.len(),
        ensures
            is_rounded_sqrt(heur_sq(self.map, idx as int), r as int),
    {
        let current_x = self.map.arena[idx].x;
        let current_y = self.map.arena[idx].y;
        let end_x = self.map.arena[self.map.end].x;
        let end_y = self.map.arena[self.map.end].y;
        let dx = if current_x >= end_x {
            current_x - end_x
        } else {
            end_x - current_x
        };
        let dy = if current_y >= end_y {
            current_y - end_y
        } else {
            end_y - current_y
        };
        proof {
            let n = self.map.arena.len() as int;
            let rl = self.map.row_length as int;
            assert(self.map.arena@[idx as int].x == idx as int % rl);
            assert(self.map.arena@[idx as int].y == idx as int / rl);
            assert(0 <= idx as int % rl < rl && 0 <= idx as int / rl <= idx as int)
                by (nonlinear_arith)
                requires
                    rl >= 1,
                    0 <= idx as int;
            assert(0 <= self.map.end as int % rl < rl && 0 <= self.map.end as int / rl
                <= self.map.end as int) by (nonlinear_arith)
                requires
                    rl >= 1,
                    0 <= self.map.end as int;
            assert(dx < 0x8000_0000 && dy < 0x8000_0000);
            assert(dx as int * dx as int + dy as int * dy as int <= 0x8000_0000_0000_0000)
                by (nonlinear_arith)
                requires
                    0 <= dx < 0x8000_0000,
                    0 <= dy < 0x8000_0000;
        }
        let sq = (dx as u64) * (dx as u64) + (dy as u64) * (dy as u64);
        proof {
            let sdx = self.map.arena@[idx as int].x - self.map.arena@[self.map.end as int].x;
            let sdy = self.map.arena@[idx as int].y - self.map.arena@[self.map.end as int].y;
            assert(sq as int == sdx * sdx + sdy * sdy) by (nonlinear_arith)
                requires
                    sq as int == dx as int * dx as int + dy as int * dy as int,
                    dx as int == if sdx >= 0 {
                        sdx
                    } else {
                        -sdx
                    },
                    dy as int == if sdy >= 0 {
                        sdy
                    } else {
                        -sdy
                    };
        }
        isqrt_round(sq)
    }

    /// Search for a shortest-candidate path from `self.start` to the grid's
    /// end node.
    ///
    /// Soundness: a returned path is a walk from the start to the end along
    /// the grid's edges, both endpoints included. Completeness: `None` comes
    /// back exactly when no such walk exists. When start and end coincide
    /// the result is the one-node path.
    #[verifier::rlimit(100)]
    pub fn a_star(&mut self) -> (r: Option<Vec<usize>>)
        requires
            old(self).wf(),
        ensures
            final(self).map == old(self).map,
            final(self).start == old(self).start,
            match r {
                Some(p) => is_path(
                    old(self).map.heights(),
                    old(self).map.row_length as int,
                    p@,
                    old(self).start,
                    old(self).map.end,
                ),
                None => !has_path(
                    old(self).map.heights(),
                    old(self).map.row_length as int,
                    old(self).start,
                    old(self).map.end,
                ),
            },
            old(self).start == old(self).map.end ==> match r {
                Some(p) => p@.len() == 1,
                None => false,
            },
    {
        let ghost hs = self.map.heights();
        let ghost rl = self.map.row_length as int;
        let n = self.map.arena.len();
        let start = self.start;
        let end = self.map.end;

        self.came_from = vec![None; n];
        let mut g_score: Vec<Option<u64>> = vec![None; n];
        let mut f_score: Vec<Option<u128>> = vec![None; n];
        let mut open_set: Vec<usize> = Vec::new();

        proof {
            lemma_counts_all_none(g_score@);
            lemma_counts_update(g_score@, start as int, Some(0u64));
        }
        g_score[start] = Some(0);
        let h0 = self.heuristic(start);
        f_score[start] = Some(h0 as u128);
        open_set.push(start);
        proof {
            assert(open_set@.len() == 1 && open_set@[0] == start);
            assert(open_set@.contains(start));
            assert(open_set@.no_duplicates());
            assert forall|v: int| 0 <= v < n && (#[trigger] g_score@[v]) is Some implies v
                == start as int by {}
        }

        while open_set.len() > 0
            invariant
                self.map == old(self).map,
                self.start == old(self).start,
                hs == self.map.heights(),
                rl == self.map.row_length as int,
                n == self.map.arena.len(),
                start == self.start,
                end == self.map.end,
                self.map.wf(),
                start < n,
                end < n,
                n <= 0x7FFF_FFFF,
                rl >= 1,
                g_score@.len() == n,
                f_score@.len() == n,
                self.came_from@.len() == n,
                open_set@.no_duplicates(),
                forall|k: int|
                    0 <= k < open_set@.len() ==> #[trigger] open_set@[k] < n && g_score@[
                        open_set@[k] as int] is Some,
                forall|v: int| 0 <= v < n && (#[trigger] g_score@[v]) is Some ==> f_score@[v]
                    is Some,
                g_score@[start as int] == Some(0u64),
                self.came_from@[start as int] is None,
                forall|v: int|
                    0 <= v < n ==> ((#[trigger] self.came_from@[v]) matches Some(p) ==> {
                        &&& p < n
                        &&& v != start
                        &&& g_score@[p as int] is Some
                        &&& g_score@[v] is Some
                        &&& val_of(g_score@[p as int]) < val_of(g_score@[v])
                        &&& is_edge(hs, rl, p, v as usize)
                    }),
                forall|v: int|
                    0 <= v < n && (#[trigger] g_score@[v]) is Some && v != start
                        ==> self.came_from@[v] is Some,
                forall|v: int|
                    0 <= v < n && (#[trigger] g_score@[v]) is Some && !open_set@.contains(
                        v as usize,
                    ) ==> (forall|w: usize|
                        #[trigger] nbr_seq(hs, rl, v).contains(w) ==> w < n && g_score@[w as int]
                            is Some),
                g_score@[end as int] is Some ==> open_set@.contains(end),
                forall|v: int|
                    0 <= v < n && (#[trigger] g_score@[v]) is Some ==> val_of(g_score@[v])
                        < num_set(g_score@),
            decreases n - num_set(g_score@), sum_vals(g_score@), open_set@.len(),
        {
            let ghost ns0 = num_set(g_score@);
            let ghost sum0 = sum_vals(g_score@);
            let ghost pre_open = open_set@;
            // Select the open node with the lowest f-score.
            let mut best: usize = 0;
            let mut j: usize = 1;
            while j < open_set.len()
                invariant
                    open_set@.len() >= 1,
                    best < open_set@.len(),
                    j <= open_set@.len(),
                    f_score@.len() == n,
                    forall|k: int|
                        0 <= k < open_set@.len() ==> #[trigger] open_set@[k] < n && g_score@[
                            open_set@[k] as int] is Some,
                    forall|v: int| 0 <= v < n && (#[trigger] g_score@[v]) is Some ==> f_score@[v]
                        is Some,
                decreases open_set@.len() - j,
            {
                if f_score[open_set[j]].unwrap() < f_score[open_set[best]].unwrap() {
                    best = j;
                }
                j = j + 1;
            }
            let current = open_set.remove(best);
            let ghost op1 = open_set@;
            proof {
                lemma_remove_nodup(pre_open, best as int);
            }
            if current == end {
                proof {
                    let cf = self.came_from@;
                    let rank = Seq::new(
                        n as nat,
                        |v: int|
                            if g_score@[v] is Some {
                                val_of(g_score@[v]) as nat
                            } else {
                                0nat
                            },
                    );
                    assert(rank_ok(cf, rank));
                }
                let path = self.reconstruct_path(current);
                proof {
                    let p = path@;
                    let cf = self.came_from@;
                    assert forall|k: int| 0 <= k < p.len() - 1 implies is_edge(
                        hs,
                        rl,
                        #[trigger] p[k],
                        p[k + 1],
                    ) by {
                        assert(cf[p[k + 1] as int] == Some(p[k]));
                    }
                    // The chain root must be the start node.
                    if p.len() >= 2 {
                        assert(cf[p[1] as int] == Some(p[0]));
                        assert(g_score@[p[0] as int] is Some);
                        assert(p[0] == start);
                    } else {
                        assert(p[0] == current);
                        assert(g_score@[current as int] is Some);
                        assert(p[0] == start);
                    }
                    assert(is_path(hs, rl, p, start, end));
                    if start == end {
                        if p.len() >= 2 {
                            assert(cf[p[p.len() - 1] as int] == Some(p[p.len() - 2]));
                            assert(false);
                        }
                    }
                }
                return Some(path);
            }
            // Relax every outgoing edge of the selected node.
            let g_cur = g_score[current].unwrap();
            proof {
                lemma_nbr_bounds(hs, rl, current as int);
                lemma_counts_nonneg(g_score@);
            }
            let nb_len = self.map.arena[current].neighbors.len();
            let ghost nbrs = nbr_seq(hs, rl, current as int);
            let mut ni: usize = 0;
            while ni < nb_len
                invariant
                    self.map == old(self).map,
                    self.start == old(self).start,
                    hs == self.map.heights(),
                    rl == self.map.row_length as int,
                    n == self.map.arena.len(),
                    start == self.start,
                    end == self.map.end,
                    self.map.wf(),
                    start < n,
                    end < n,
                    n <= 0x7FFF_FFFF,
                    rl >= 1,
                    g_score@.len() == n,
                    f_score@.len() == n,
                    self.came_from@.len() == n,
                    open_set@.no_duplicates(),
                    forall|k: int|
                        0 <= k < open_set@.len() ==> #[trigger] open_set@[k] < n && g_score@[
                            open_set@[k] as int] is Some,
                    forall|v: int| 0 <= v < n && (#[trigger] g_score@[v]) is Some ==> f_score@[v]
                        is Some,
                    g_score@[start as int] == Some(0u64),
                    self.came_from@[start as int] is None,
                    forall|v: int|
                        0 <= v < n ==> ((#[trigger] self.came_from@[v]) matches Some(p) ==> {
                            &&& p < n
                            &&& v != start
                            &&& g_score@[p as int] is Some
                            &&& g_score@[v] is Some
                            &&& val_of(g_score@[p as int]) < val_of(g_score@[v])
                            &&& is_edge(hs, rl, p, v as usize)
                        }),
                    forall|v: int|
                        0 <= v < n && (#[trigger] g_score@[v]) is Some && v != start
                            ==> self.came_from@[v] is Some,
                    forall|v: int|
                        0 <= v < n && (#[trigger] g_score@[v]) is Some && !open_set@.contains(
                            v as usize,
                        ) && v != current ==> (forall|w: usize|
                            #[trigger] nbr_seq(hs, rl, v).contains(w) ==> w < n && g_score@[
                                w as int] is Some),
                    g_score@[end as int] is Some ==> open_set@.contains(end),
                    forall|v: int|
                        0 <= v < n && (#[trigger] g_score@[v]) is Some ==> val_of(g_score@[v])
                            < num_set(g_score@),
                    current < n,
                    current != end,
                    current != start ==> self.came_from@[current as int] is Some,
                    g_score@[current as int] == Some(g_cur),
                    !open_set@.contains(current),
                    nbrs == nbr_seq(hs, rl, current as int),
                    forall|w: usize| #[trigger] nbrs.contains(w) ==> w < n && w != current,
                    nb_len == nbrs.len(),
                    ni <= nb_len,
                    forall|k: int|
                        0 <= k < ni ==> #[trigger] nbrs[k] < n && g_score@[nbrs[k] as int]
                            is Some,
                    num_set(g_score@) >= ns0,
                    num_set(g_score@) == ns0 ==> sum_vals(g_score@) <= sum0,
                    num_set(g_score@) == ns0 && sum_vals(g_score@) == sum0 ==> open_set@ == op1,
                    op1.len() == pre_open.len() - 1,
                decreases nb_len - ni,
            {
                let neighbor = self.map.arena[current].neighbors[ni];
                proof {
                    assert(self.map.arena@[current as int].neighbors@ == nbrs);
                    assert(nbrs[ni as int] == neighbor);
                    assert(nbrs.contains(neighbor));
                }
                proof {
                    lemma_counts_nonneg(g_score@);
                }
                let tentative = g_cur + 1;
                let neighbor_g = match g_score[neighbor] {
                    Some(s) => s,
                    None => u64::MAX,
                };
                if tentative < neighbor_g {
                    proof {
                        lemma_counts_update(g_score@, neighbor as int, Some(tentative));
                        lemma_counts_nonneg(g_score@);
                    }
                    self.came_from[neighbor] = Some(current);
                    g_score[neighbor] = Some(tentative);
                    let hn = self.heuristic(neighbor);
                    f_score[neighbor] = Some(tentative as u128 + hn as u128);
                    if !vec_contains(&open_set, neighbor) {
                        proof {
                            lemma_push_nodup(open_set@, neighbor);
                        }
                        open_set.push(neighbor);
                    }
                }
                ni = ni + 1;
            }
            proof {
                lemma_counts_nonneg(g_score@);
            }
        }
        proof {
            if g_score@[end as int] is Some {
                assert(open_set@.contains(end));
                assert(false);
            }
            if has_path(hs, rl, start, end) {
                let p = choose|p: Seq<usize>| is_path(hs, rl, p, start, end);
                assert forall|v: int|
                    0 <= v < n && (#[trigger] g_score@[v]) is Some implies (forall|w: usize|
                        #[trigger] nbr_seq(hs, rl, v).contains(w) ==> w < n && g_score@[w as int]
                            is Some) by {
                    assert(!open_set@.contains(v as usize));
                }
                lemma_path_discovered(hs, rl, g_score@, start, end, p, p.len() - 1);
                assert(g_score@[end as int] is Some);
                assert(false);
            }
        }
        None
    }
}

/// Every node on a walk out of the start is discovered, provided the set of
/// discovered nodes contains the start and is closed under the grid's
/// edges.
proof fn lemma_path_discovered(
    hs: Seq<char>,
    rl: int,
    g: Seq<Option<u64>>,
    s: usize,
    e: usize,
    p: Seq<usize>,
    k: int,
)
    requires
        is_path(hs, rl, p, s, e),
        g.len() == hs.len(),
        s < g.len(),
        g[s as int] is Some,
        forall|v: int|
            0 <= v < g.len() && (#[trigger] g[v]) is Some ==> (forall|w: usize|
                #[trigger] nbr_seq(hs, rl, v).contains(w) ==> w < g.len() && g[w as int] is Some),
        0 <= k < p.len(),
    ensures
        p[k] < g.len() && g[p[k] as int] is Some,
    decreases k,
{
    if k == 0 {
        assert(p[0] == s);
    } else {
        lemma_path_discovered(hs, rl, g, s, e, p, k - 1);
        assert(is_edge(hs, rl, p[k - 1], p[k]));
        assert(nbr_seq(hs, rl, p[k - 1] as int).contains(p[k]));
    }
}

/// The global shortest hike: run an independent search from every cell of
/// the lowest elevation and keep the smallest edge count any of them found.
///
/// A returned length is the edge count (one less than the node count) of a
/// real walk from some lowest cell to the end; `None` comes back exactly
/// when no lowest cell can reach the end at all.
pub fn shortest_hike(map: HeightMap) -> (r: Option<usize>)
    requires
        map.wf(),
    ensures
        ({
            let hs = map.heights();
            let rl = map.row_length as int;
            match r {
                Some(len) => exists|v: usize, p: Seq<usize>|
                    {
                        &&& v < map.arena.len()
                        &&& hs[v as int] == 'a'
                        &&& is_path(hs, rl, p, v, map.end)
                        &&& len == p.len() - 1
                    },
                None => forall|v: usize|
                    v < map.arena.len() && #[trigger] hs[v as int] == 'a' ==> !has_path(
                        hs,
                        rl,
                        v,
                        map.end,
                    ),
            }
        }),
{
    let ghost hs = map.heights();
    let ghost rl = map.row_length as int;
    let ghost end = map.end;
    let n = map.arena.len();
    let mut best: Option<usize> = None;
    let mut pf = Pathfinder { map, came_from: Vec::new(), start: 0 };
    let mut v: usize = 0;
    while v < n
        invariant
            pf.map.wf(),
            hs == pf.map.heights(),
            rl == pf.map.row_length as int,
            end == pf.map.end,
            n == pf.map.arena.len(),
            v <= n,
            match best {
                Some(len) => exists|w: usize, p: Seq<usize>|
                    {
                        &&& w < n
                        &&& hs[w as int] == 'a'
                        &&& is_path(hs, rl, p, w, end)
                        &&& len == p.len() - 1
                    },
                None => forall|w: usize|
                    w < v && #[trigger] hs[w as int] == 'a' ==> !has_path(hs, rl, w, end),
            },
        decreases n - v,
    {
        if pf.map.arena[v].height == 'a' {
            pf.start = v;
            let found = pf.a_star();
            match found {
                Some(path) => {
                    let len = path.len() - 1;
                    let keep = match best {
                        Some(b) => len < b,
                        None => true,
                    };
                    if keep {
                        best = Some(len);
                    }
                },
                None => {},
            }
        }
        v = v + 1;
    }
    best
}

} // verus!
