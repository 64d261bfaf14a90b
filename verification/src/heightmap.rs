//! Elevation grid model: a rectangular character matrix is turned into a
//! graph of nodes with precomputed adjacency.
//!
//! Each cell holds an elevation drawn from `'a'..='z'`; the marker `'S'`
//! (start) counts as elevation `'a'` and the marker `'E'` (end) as `'z'`.
//! A directed edge runs from a cell to an orthogonal neighbour whenever the
//! neighbour's elevation is at most one step higher; descents of any size
//! are allowed.

use vstd::prelude::*;

verus! {

/// Building a grid from a malformed matrix fails with this error.
#[derive(Debug, PartialEq, Eq, Structural)]
pub enum GridError {
    MalformedInput,
}

/// One cell of the grid: its coordinates, its (already converted) elevation
/// character, and the linear indices of the nodes reachable from it.
pub struct Node {
    pub x: usize,
    pub y: usize,
    pub height: char,
    pub neighbors: Vec<usize>,
}

/// What a marker cell is converted to when the grid is built.
pub open spec fn converted(c: char) -> char {
    if c == 'S' {
        'a'
    } else if c == 'E' {
        'z'
    } else {
        c
    }
}

/// The elevation rule: a step from elevation `a` to elevation `b` is allowed
/// iff `b` is at most one higher than `a`.
pub open spec fn step_ok(hs: Seq<char>, i: int, j: int) -> bool {
    hs[j] as u32 <= hs[i] as u32 + 1
}

/// The exact neighbour list of linear index `i` in a grid of `hs.len()`
/// cells and row length `rl`: the in-bounds orthogonal neighbours that the
/// elevation rule admits, in the fixed discovery order north, south, west,
/// east.
#[verifier::opaque]
pub open spec fn nbr_seq(hs: Seq<char>, rl: int, i: int) -> Seq<usize> {
    let n = hs.len() as int;
    let north: Seq<usize> = if i - rl >= 0 && step_ok(hs, i, i - rl) {
        seq![(i - rl) as usize]
    } else {
        Seq::empty()
    };
    let south: Seq<usize> = if i + rl < n && step_ok(hs, i, i + rl) {
        seq![(i + rl) as usize]
    } else {
        Seq::empty()
    };
    let west: Seq<usize> = if i % rl >= 1 && step_ok(hs, i, i - 1) {
        seq![(i - 1) as usize]
    } else {
        Seq::empty()
    };
    let east: Seq<usize> = if i % rl + 1 < rl && i + 1 < n && step_ok(hs, i, i + 1) {
        seq![(i + 1) as usize]
    } else {
        Seq::empty()
    };
    north + south + west + east
}

/// A directed edge from `a` to `b` in the adjacency the grid precomputes.
pub open spec fn is_edge(hs: Seq<char>, rl: int, a: usize, b: usize) -> bool {
    a < hs.len() && nbr_seq(hs, rl, a as int).contains(b)
}

/// `p` is a walk from `s` to `e` along allowed edges, inclusive of both
/// endpoints.
pub open spec fn is_path(hs: Seq<char>, rl: int, p: Seq<usize>, s: usize, e: usize) -> bool {
    &&& p.len() >= 1
    &&& p[0] == s
    &&& p[p.len() - 1] == e
    &&& forall|k: int| 0 <= k < p.len() - 1 ==> is_edge(hs, rl, #[trigger] p[k], p[k + 1])
}

/// Some walk from `s` to `e` exists.
pub open spec fn has_path(hs: Seq<char>, rl: int, s: usize, e: usize) -> bool {
    exists|p: Seq<usize>| is_path(hs, rl, p, s, e)
}

/// Every neighbour index the adjacency admits is in bounds, and no node is
/// its own neighbour.
pub proof fn lemma_nbr_bounds(hs: Seq<char>, rl: int, i: int)
    requires
        rl >= 1,
        0 <= i < hs.len(),
        hs.len() <= 0x7FFF_FFFF,
    ensures
        forall|j: usize| #[trigger] nbr_seq(hs, rl, i).contains(j) ==> j < hs.len() && j != i,
{
    reveal(nbr_seq);
    let s = nbr_seq(hs, rl, i);
    assert forall|j: usize| #[trigger] s.contains(j) implies j < hs.len() && j != i by {
        let k = choose|k: int| 0 <= k < s.len() && s[k] == j;
        assert(s[k] == j);
        let n = hs.len() as int;
        let north: Seq<usize> = if i - rl >= 0 && step_ok(hs, i, i - rl) {
            seq![(i - rl) as usize]
        } else {
            Seq::empty()
        };
        let south: Seq<usize> = if i + rl < n && step_ok(hs, i, i + rl) {
            seq![(i + rl) as usize]
        } else {
            Seq::empty()
        };
        let west: Seq<usize> = if i % rl >= 1 && step_ok(hs, i, i - 1) {
            seq![(i - 1) as usize]
        } else {
            Seq::empty()
        };
        let east: Seq<usize> = if i % rl + 1 < rl && i + 1 < n && step_ok(hs, i, i + 1) {
            seq![(i + 1) as usize]
        } else {
            Seq::empty()
        };
        assert(s == north + south + west + east);
        assert((north + south + west + east)[k] == j);
        if i % rl >= 1 {
            assert(i >= 1) by (nonlinear_arith)
                requires rl >= 1, i >= 0, i % rl >= 1;
        }
        if k < north.len() {
            assert(j == north[k]);
            assert(j == (i - rl) as usize);
        } else if k < north.len() + south.len() {
            assert(j == south[k - north.len()]);
            assert(j == (i + rl) as usize);
        } else if k < north.len() + south.len() + west.len() {
            assert(j == west[k - north.len() - south.len()]);
            assert(j == (i - 1) as usize);
        } else {
            assert(j == east[k - north.len() - south.len() - west.len()]);
            assert(j == (i + 1) as usize);
        }
    }
}

/// An edge the grid admits always runs between distinct in-bounds cells
/// and climbs at most one elevation step; descents of any size occur.
pub proof fn lemma_edge_obeys_elevation_rule(hs: Seq<char>, rl: int, a: usize, b: usize)
    requires
        rl >= 1,
        hs.len() <= 0x7FFF_FFFF,
        is_edge(hs, rl, a, b),
    ensures
        a < hs.len(),
        b < hs.len(),
        a != b,
        step_ok(hs, a as int, b as int),
{
    reveal(nbr_seq);
    lemma_nbr_bounds(hs, rl, a as int);
    let s = nbr_seq(hs, rl, a as int);
    let i = a as int;
    let k = choose|k: int| 0 <= k < s.len() && s[k] == b;
    assert(s[k] == b);
    let n = hs.len() as int;
    let north: Seq<usize> = if i - rl >= 0 && step_ok(hs, i, i - rl) {
        seq![(i - rl) as usize]
    } else {
        Seq::empty()
    };
    let south: Seq<usize> = if i + rl < n && step_ok(hs, i, i + rl) {
        seq![(i + rl) as usize]
    } else {
        Seq::empty()
    };
    let west: Seq<usize> = if i % rl >= 1 && step_ok(hs, i, i - 1) {
        seq![(i - 1) as usize]
    } else {
        Seq::empty()
    };
    let east: Seq<usize> = if i % rl + 1 < rl && i + 1 < n && step_ok(hs, i, i + 1) {
        seq![(i + 1) as usize]
    } else {
        Seq::empty()
    };
    assert(s == north + south + west + east);
    assert((north + south + west + east)[k] == b);
    if i % rl >= 1 {
        assert(i >= 1) by (nonlinear_arith)
            requires rl >= 1, i >= 0, i % rl >= 1;
    }
    if k < north.len() {
        assert(b == north[k]);
    } else if k < north.len() + south.len() {
        assert(b == south[k - north.len()]);
    } else if k < north.len() + south.len() + west.len() {
        assert(b == west[k - north.len() - south.len()]);
    } else {
        assert(b == east[k - north.len() - south.len() - west.len()]);
    }
}

/// Along any valid walk, consecutive nodes are adjacent per the elevation
/// rule: the next node is in bounds and at most one elevation step higher.
pub proof fn lemma_path_obeys_elevation_rule(
    hs: Seq<char>,
    rl: int,
    p: Seq<usize>,
    s: usize,
    e: usize,
)
    requires
        rl >= 1,
        hs.len() <= 0x7FFF_FFFF,
        is_path(hs, rl, p, s, e),
    ensures
        forall|k: int|
            0 <= k < p.len() - 1 ==> #[trigger] p[k] < hs.len() && p[k + 1] < hs.len() && step_ok(
                hs,
                p[k] as int,
                p[k + 1] as int,
            ),
{
    assert forall|k: int|
        0 <= k < p.len() - 1 implies #[trigger] p[k] < hs.len() && p[k + 1] < hs.len() && step_ok(
        hs,
        p[k] as int,
        p[k + 1] as int,
    ) by {
        lemma_edge_obeys_elevation_rule(hs, rl, p[k], p[k + 1]);
    }
}

/// The matrix view of a vector of rows.
pub open spec fn grid_view(map: Vec<Vec<char>>) -> Seq<Seq<char>> {
    map@.map_values(|row: Vec<char>| row@)
}

/// The matrix is non-empty and all rows have the same, non-zero length.
pub open spec fn rectangular(g: Seq<Seq<char>>) -> bool {
    &&& g.len() >= 1
    &&& g[0].len() >= 1
    &&& forall|r: int| 0 <= r < g.len() ==> (#[trigger] g[r]).len() == g[0].len()
}

/// The character is a legal cell: a marker or a plain elevation.
pub open spec fn cell_ok(c: char) -> bool {
    c == 'S' || c == 'E' || ('a' as u32 <= c as u32 <= 'z' as u32)
}

pub open spec fn all_cells_ok(g: Seq<Seq<char>>) -> bool {
    forall|r: int, c: int| 0 <= r < g.len() && 0 <= c < g[r].len() ==> cell_ok(#[trigger] g[r][c])
}

/// `ch` occurs at `(r, c)` and nowhere else in the matrix.
pub open spec fn marker_at(g: Seq<Seq<char>>, ch: char, r: int, c: int) -> bool {
    &&& 0 <= r < g.len()
    &&& 0 <= c < g[r].len()
    &&& g[r][c] == ch
    &&& forall|r2: int, c2: int|
        0 <= r2 < g.len() && 0 <= c2 < g[r2].len() && #[trigger] g[r2][c2] == ch ==> r2 == r
            && c2 == c
}

pub open spec fn exactly_one(g: Seq<Seq<char>>, ch: char) -> bool {
    exists|r: int, c: int| marker_at(g, ch, r, c)
}

/// A matrix from which a grid can be built: rectangular, only legal cells,
/// and exactly one start and one end marker.
pub open spec fn valid_grid(g: Seq<Seq<char>>) -> bool {
    &&& rectangular(g)
    &&& all_cells_ok(g)
    &&& exactly_one(g, 'S')
    &&& exactly_one(g, 'E')
}

/// A linear index below `rows * rl` decomposes into an in-bounds row and
/// column, and the decomposition inverts `y * rl + x`.
proof fn lemma_index_decompose(pos: int, rl: int, rows: int)
    requires
        rl >= 1,
        rows >= 0,
        0 <= pos < rows * rl,
    ensures
        0 <= pos / rl < rows,
        0 <= pos % rl < rl,
        pos == (pos / rl) * rl + (pos % rl),
{
    assert(0 <= pos / rl < rows && 0 <= pos % rl < rl && pos == (pos / rl) * rl + (pos % rl))
        by (nonlinear_arith)
        requires
            rl >= 1,
            rows >= 0,
            0 <= pos < rows * rl;
}

/// `y * rl + x` is the linear index of row `y`, column `x`.
proof fn lemma_linear_index(pos: int, rl: int, y: int, x: int)
    requires
        rl >= 1,
        0 <= x < rl,
        0 <= y,
        pos == y * rl + x,
    ensures
        pos / rl == y,
        pos % rl == x,
{
    vstd::arithmetic::div_mod::lemma_fundamental_div_mod_converse_div(pos, rl, y, x);
    vstd::arithmetic::div_mod::lemma_fundamental_div_mod_converse_mod(pos, rl, y, x);
}

impl Node {
    pub fn new(x: usize, y: usize, height: char) -> (r: Node)
        ensures
            r.x == x,
            r.y == y,
            r.height == height,
            r.neighbors@ == Seq::<usize>::empty(),
    {
        Node { x, y, height, neighbors: Vec::new() }
    }

    pub fn add_neighbor(&mut self, neighbor: usize)
        ensures
            final(self).x == old(self).x,
            final(self).y == old(self).y,
            final(self).height == old(self).height,
            final(self).neighbors@ == old(self).neighbors@.push(neighbor),
    {
        self.neighbors.push(neighbor);
    }
}

/// The grid model: a flat arena of nodes (row-major), the distinguished
/// start and end indices, and the common row length.
pub struct HeightMap {
    pub arena: Vec<Node>,
    pub start: usize,
    pub end: usize,
    pub row_length: usize,
}

/// Check that every row of the matrix has length `row_length`.
fn check_rect(map: &Vec<Vec<char>>, row_length: usize) -> (r: bool)
    requires
        map@.len() >= 1,
        row_length == map@[0]@.len(),
        row_length >= 1,
    ensures
        r == rectangular(grid_view(*map)),
{
    let ghost g = grid_view(*map);
    let rows = map.len();
    let mut r: usize = 0;
    while r < rows
        invariant
            rows == map@.len(),
            rows >= 1,
            row_length == map@[0]@.len(),
            g == grid_view(*map),
            g.len() == rows,
            forall|r2: int| 0 <= r2 < rows ==> #[trigger] g[r2] == map@[r2]@,
            r <= rows,
            forall|r2: int| 0 <= r2 < r ==> (#[trigger] g[r2]).len() == row_length,
        decreases rows - r,
    {
        if map[r].len() != row_length {
            assert(g[r as int].len() != g[0].len());
            return false;
        }
        r = r + 1;
    }
    true
}

/// Scan all cells: check every character is legal and find the unique start
/// and end markers, returned as linear indices. Fails on an illegal
/// character, a duplicate marker, or a missing marker.
#[verifier::rlimit(60)]
fn scan_markers(map: &Vec<Vec<char>>, row_length: usize) -> (r: Result<(usize, usize), GridError>)
    requires
        rectangular(grid_view(*map)),
        row_length == map@[0]@.len(),
        map@.len() * map@[0]@.len() <= 0x7FFF_FFFF,
    ensures
        ({
            let g = grid_view(*map);
            let rl = row_length as int;
            match r {
                Ok(se) => {
                    &&& valid_grid(g)
                    &&& se.0 < g.len() * rl
                    &&& se.1 < g.len() * rl
                    &&& marker_at(g, 'S', se.0 as int / rl, se.0 as int % rl)
                    &&& marker_at(g, 'E', se.1 as int / rl, se.1 as int % rl)
                },
                Err(e) => e == GridError::MalformedInput && !valid_grid(g),
            }
        }),
{
    let ghost g = grid_view(*map);
    let ghost rl = row_length as int;
    let rows = map.len();
    let mut s_count: usize = 0;
    let mut e_count: usize = 0;
    let mut s_pos: usize = 0;
    let mut e_pos: usize = 0;
    let mut y: usize = 0;
    while y < rows
        invariant
            rows == map@.len(),
            rectangular(g),
            g == grid_view(*map),
            g.len() == rows,
            forall|r2: int| 0 <= r2 < rows ==> #[trigger] g[r2] == map@[r2]@,
            forall|r2: int| 0 <= r2 < rows ==> (#[trigger] g[r2]).len() == row_length,
            rl == row_length as int,
            row_length >= 1,
            rows * row_length <= 0x7FFF_FFFF,
            y <= rows,
            s_count <= 1,
            e_count <= 1,
            forall|r2: int, c2: int|
                0 <= r2 < y && 0 <= c2 < rl ==> cell_ok(#[trigger] g[r2][c2]),
            s_count == 0 ==> forall|r2: int, c2: int|
                0 <= r2 < y && 0 <= c2 < rl ==> #[trigger] g[r2][c2] != 'S',
            s_count == 1 ==> {
                &&& s_pos < y * row_length
                &&& g[s_pos as int / rl][s_pos as int % rl] == 'S'
                &&& forall|r2: int, c2: int|
                    0 <= r2 < y && 0 <= c2 < rl && #[trigger] g[r2][c2] == 'S' ==> r2 * rl + c2
                        == s_pos
            },
            e_count == 0 ==> forall|r2: int, c2: int|
                0 <= r2 < y && 0 <= c2 < rl ==> #[trigger] g[r2][c2] != 'E',
            e_count == 1 ==> {
                &&& e_pos < y * row_length
                &&& g[e_pos as int / rl][e_pos as int % rl] == 'E'
                &&& forall|r2: int, c2: int|
                    0 <= r2 < y && 0 <= c2 < rl && #[trigger] g[r2][c2] == 'E' ==> r2 * rl + c2
                        == e_pos
            },
        decreases rows - y,
    {
        let mut x: usize = 0;
        proof {
            assert((y + 1) * rl <= rows * rl) by (nonlinear_arith)
                requires y < rows, rl >= 1;
            assert((y as int) * rl + rl == (y + 1) * rl) by (nonlinear_arith);
            assert((y as int) * rl >= 0) by (nonlinear_arith)
                requires y >= 0, rl >= 0;
        }
        while x < row_length
            invariant
                rows == map@.len(),
                rectangular(g),
                g == grid_view(*map),
                g.len() == rows,
                forall|r2: int| 0 <= r2 < rows ==> #[trigger] g[r2] == map@[r2]@,
                forall|r2: int| 0 <= r2 < rows ==> (#[trigger] g[r2]).len() == row_length,
                rl == row_length as int,
                row_length >= 1,
                rows * row_length <= 0x7FFF_FFFF,
                y < rows,
                x <= row_length,
                (y as int) * rl >= 0,
                (y as int) * rl + rl <= rows * rl,
                s_count <= 1,
                e_count <= 1,
                forall|r2: int, c2: int|
                    0 <= r2 < y && 0 <= c2 < rl ==> cell_ok(#[trigger] g[r2][c2]),
                forall|c2: int| 0 <= c2 < x ==> cell_ok(#[trigger] g[y as int][c2]),
                s_count == 0 ==> forall|r2: int, c2: int|
                    0 <= r2 < y && 0 <= c2 < rl ==> #[trigger] g[r2][c2] != 'S',
                s_count == 0 ==> forall|c2: int| 0 <= c2 < x ==> #[trigger] g[y as int][c2] != 'S',
                s_count == 1 ==> {
                    &&& s_pos < y * row_length + x
                    &&& g[s_pos as int / rl][s_pos as int % rl] == 'S'
                    &&& forall|r2: int, c2: int|
                        0 <= r2 < y && 0 <= c2 < rl && #[trigger] g[r2][c2] == 'S' ==> r2 * rl + c2
                            == s_pos
                    &&& forall|c2: int|
                        0 <= c2 < x && #[trigger] g[y as int][c2] == 'S' ==> (y as int) * rl + c2
                            == s_pos
                },
                e_count == 0 ==> forall|r2: int, c2: int|
                    0 <= r2 < y && 0 <= c2 < rl ==> #[trigger] g[r2][c2] != 'E',
                e_count == 0 ==> forall|c2: int| 0 <= c2 < x ==> #[trigger] g[y as int][c2] != 'E',
                e_count == 1 ==> {
                    &&& e_pos < y * row_length + x
                    &&& g[e_pos as int / rl][e_pos as int % rl] == 'E'
                    &&& forall|r2: int, c2: int|
                        0 <= r2 < y && 0 <= c2 < rl && #[trigger] g[r2][c2] == 'E' ==> r2 * rl + c2
                            == e_pos
                    &&& forall|c2: int|
                        0 <= c2 < x && #[trigger] g[y as int][c2] == 'E' ==> (y as int) * rl + c2
                            == e_pos
                },
            decreases row_length - x,
        {
            proof {
                assert(g[y as int] == map@[y as int]@);
                assert(g[y as int].len() == row_length);
            }
            let c = map[y][x];
            let pos = y * row_length + x;
            proof {
                lemma_linear_index(pos as int, rl, y as int, x as int);
                assert(g[y as int][x as int] == c);
            }
            if c == 'S' {
                if s_count == 1 {
                    proof {
                        lemma_index_decompose(s_pos as int, rl, rows as int);
                        if exactly_one(g, 'S') {
                            let (rr, cc) = choose|rr: int, cc: int| marker_at(g, 'S', rr, cc);
                            assert(g[y as int][x as int] == 'S');
                            assert(rr == y as int && cc == x as int);
                            assert(g[s_pos as int / rl][s_pos as int % rl] == 'S');
                            assert(rr == s_pos as int / rl && cc == s_pos as int % rl);
                            assert(s_pos as int == (y as int) * rl + x as int);
                            assert(false);
                        }
                    }
                    return Err(GridError::MalformedInput);
                }
                s_count = 1;
                s_pos = pos;
            } else if c == 'E' {
                if e_count == 1 {
                    proof {
                        lemma_index_decompose(e_pos as int, rl, rows as int);
                        if exactly_one(g, 'E') {
                            let (rr, cc) = choose|rr: int, cc: int| marker_at(g, 'E', rr, cc);
                            assert(g[y as int][x as int] == 'E');
                            assert(rr == y as int && cc == x as int);
                            assert(g[e_pos as int / rl][e_pos as int % rl] == 'E');
                            assert(rr == e_pos as int / rl && cc == e_pos as int % rl);
                            assert(e_pos as int == (y as int) * rl + x as int);
                            assert(false);
                        }
                    }
                    return Err(GridError::MalformedInput);
                }
                e_count = 1;
                e_pos = pos;
            } else if !(c as u32 >= 'a' as u32 && c as u32 <= 'z' as u32) {
                proof {
                    assert(!cell_ok(g[y as int][x as int]));
                    assert(!all_cells_ok(g));
                }
                return Err(GridError::MalformedInput);
            }
            x = x + 1;
        }
        y = y + 1;
    }
    if s_count == 0 {
        proof {
            if exactly_one(g, 'S') {
                let (rr, cc) = choose|rr: int, cc: int| marker_at(g, 'S', rr, cc);
                assert(g[rr][cc] == 'S');
                assert(false);
            }
        }
        return Err(GridError::MalformedInput);
    }
    if e_count == 0 {
        proof {
            if exactly_one(g, 'E') {
                let (rr, cc) = choose|rr: int, cc: int| marker_at(g, 'E', rr, cc);
                assert(g[rr][cc] == 'E');
                assert(false);
            }
        }
        return Err(GridError::MalformedInput);
    }
    proof {
        assert((rows as int) * rl == rows * row_length);
        lemma_index_decompose(s_pos as int, rl, rows as int);
        lemma_index_decompose(e_pos as int, rl, rows as int);
        assert(marker_at(g, 'S', s_pos as int / rl, s_pos as int % rl)) by {
            assert forall|r2: int, c2: int|
                0 <= r2 < g.len() && 0 <= c2 < g[r2].len() && #[trigger] g[r2][c2] == 'S' implies r2
                == s_pos as int / rl && c2 == s_pos as int % rl by {
                assert(g[r2].len() == row_length);
                assert(r2 * rl + c2 == s_pos);
                lemma_linear_index(s_pos as int, rl, r2, c2);
            }
        }
        assert(marker_at(g, 'E', e_pos as int / rl, e_pos as int % rl)) by {
            assert forall|r2: int, c2: int|
                0 <= r2 < g.len() && 0 <= c2 < g[r2].len() && #[trigger] g[r2][c2] == 'E' implies r2
                == e_pos as int / rl && c2 == e_pos as int % rl by {
                assert(g[r2].len() == row_length);
                assert(r2 * rl + c2 == e_pos);
                lemma_linear_index(e_pos as int, rl, r2, c2);
            }
        }
        assert(all_cells_ok(g)) by {
            assert forall|r2: int, c2: int|
                0 <= r2 < g.len() && 0 <= c2 < g[r2].len() implies cell_ok(#[trigger] g[r2][c2]) by {
                assert(g[r2].len() == row_length);
            }
        }
        assert(valid_grid(g));
    }
    Ok((s_pos, e_pos))
}

/// Build the arena of nodes in row-major order, converting the markers to
/// their elevations.
#[verifier::rlimit(30)]
fn build_nodes(map: &Vec<Vec<char>>, row_length: usize) -> (arena: Vec<Node>)
    requires
        rectangular(grid_view(*map)),
        row_length == map@[0]@.len(),
        map@.len() * map@[0]@.len() <= 0x7FFF_FFFF,
    ensures
        ({
            let g = grid_view(*map);
            let rl = row_length as int;
            &&& arena.len() == g.len() * rl
            &&& forall|i: int|
                0 <= i < arena.len() ==> {
                    &&& (#[trigger] arena@[i]).x == i % rl
                    &&& arena@[i].y == i / rl
                    &&& arena@[i].height == converted(g[i / rl][i % rl])
                    &&& arena@[i].neighbors@ == Seq::<usize>::empty()
                }
        }),
{
    let ghost g = grid_view(*map);
    let ghost rl = row_length as int;
    let rows = map.len();
    let mut arena: Vec<Node> = Vec::new();
    let mut y: usize = 0;
    while y < rows
        invariant
            rows == map@.len(),
            rectangular(g),
            g == grid_view(*map),
            g.len() == rows,
            forall|r2: int| 0 <= r2 < rows ==> #[trigger] g[r2] == map@[r2]@,
            forall|r2: int| 0 <= r2 < rows ==> (#[trigger] g[r2]).len() == row_length,
            rl == row_length as int,
            row_length >= 1,
            rows * row_length <= 0x7FFF_FFFF,
            y <= rows,
            arena.len() == y * row_length,
            forall|i: int|
                0 <= i < arena.len() ==> {
                    &&& (#[trigger] arena@[i]).x == i % rl
                    &&& arena@[i].y == i / rl
                    &&& arena@[i].height == converted(g[i / rl][i % rl])
                    &&& arena@[i].neighbors@ == Seq::<usize>::empty()
                },
        decreases rows - y,
    {
        let mut x: usize = 0;
        proof {
            assert((y + 1) * rl <= rows * rl) by (nonlinear_arith)
                requires y < rows, rl >= 1;
            assert((y as int) * rl + rl == (y + 1) * rl) by (nonlinear_arith);
        }
        while x < row_length
            invariant
                rows == map@.len(),
                rectangular(g),
                g == grid_view(*map),
                g.len() == rows,
                forall|r2: int| 0 <= r2 < rows ==> #[trigger] g[r2] == map@[r2]@,
                forall|r2: int| 0 <= r2 < rows ==> (#[trigger] g[r2]).len() == row_length,
                rl == row_length as int,
                row_length >= 1,
                rows * row_length <= 0x7FFF_FFFF,
                y < rows,
                x <= row_length,
                (y as int) * rl + rl <= rows * rl,
                arena.len() == y * row_length + x,
                forall|i: int|
                    0 <= i < arena.len() ==> {
                        &&& (#[trigger] arena@[i]).x == i % rl
                        &&& arena@[i].y == i / rl
                        &&& arena@[i].height == converted(g[i / rl][i % rl])
                        &&& arena@[i].neighbors@ == Seq::<usize>::empty()
                    },
            decreases row_length - x,
        {
            proof {
                assert(g[y as int] == map@[y as int]@);
                assert(g[y as int].len() == row_length);
            }
            let mut converted_height = map[y][x];
            if converted_height == 'S' {
                converted_height = 'a';
            } else if converted_height == 'E' {
                converted_height = 'z';
            }
            let node = Node::new(x, y, converted_height);
            proof {
                lemma_linear_index(arena.len() as int, rl, y as int, x as int);
            }
            arena.push(node);
            x = x + 1;
        }
        y = y + 1;
    }
    arena
}

impl HeightMap {
    /// The elevation characters of the arena, in linear order.
    pub open spec fn heights(self) -> Seq<char> {
        self.arena@.map_values(|n: Node| n.height)
    }

    /// Everything `wf` asks of the grid except the neighbour lists.
    pub open spec fn base_wf(self) -> bool {
        &&& 1 <= self.row_length <= self.arena.len()
        &&& self.arena.len() as int % self.row_length as int == 0
        &&& self.arena.len() <= 0x7FFF_FFFF
        &&& self.start < self.arena.len()
        &&& self.end < self.arena.len()
        &&& forall|i: int|
            0 <= i < self.arena.len() ==> (#[trigger] self.arena@[i]).x == i % (
            self.row_length as int)
        &&& forall|i: int|
            0 <= i < self.arena.len() ==> (#[trigger] self.arena@[i]).y == i / (
            self.row_length as int)
        &&& forall|i: int|
            0 <= i < self.arena.len() ==> 'a' as u32 <= (#[trigger] self.arena@[i]).height as u32
                <= 'z' as u32
    }

    /// A well-formed grid: dimensions and fields consistent, and every
    /// node's neighbour list exactly as the elevation rule dictates.
    pub open spec fn wf(self) -> bool {
        &&& self.base_wf()
        &&& forall|i: int|
            0 <= i < self.arena.len() ==> (#[trigger] self.arena@[i]).neighbors@ == nbr_seq(
                self.heights(),
                self.row_length as int,
                i,
            )
    }

    /// Build the grid from a character matrix.
    ///
    /// Succeeds exactly on valid matrices (rectangular, legal cells, exactly
    /// one `'S'` and one `'E'`); everything else is `MalformedInput`. On
    /// success the arena holds the converted elevations in row-major order
    /// and the neighbour lists realise the elevation rule.
    #[verifier::rlimit(30)]
    pub fn new(map: Vec<Vec<char>>) -> (r: Result<HeightMap, GridError>)
        requires
            map@.len() * (if map@.len() > 0 {
                map@[0]@.len()
            } else {
                0
            }) <= 0x7FFF_FFFF,
        ensures
            ({
                let g = grid_view(map);
                match r {
                    Ok(h) => {
                        let rl = h.row_length as int;
                        &&& valid_grid(g)
                        &&& h.wf()
                        &&& h.row_length == g[0].len()
                        &&& h.arena.len() == g.len() * g[0].len()
                        &&& forall|i: int|
                            0 <= i < h.arena.len() ==> h.heights()[i] == converted(
                                g[i / rl][i % rl],
                            )
                        &&& marker_at(g, 'S', h.start as int / rl, h.start as int % rl)
                        &&& marker_at(g, 'E', h.end as int / rl, h.end as int % rl)
                    },
                    Err(e) => e == GridError::MalformedInput && !valid_grid(g),
                }
            }),
    {
        let ghost g = grid_view(map);
        let rows = map.len();
        if rows == 0 {
            return Err(GridError::MalformedInput);
        }
        let row_length = map[0].len();
        if row_length == 0 {
            proof {
                assert(g[0].len() == 0);
            }
            return Err(GridError::MalformedInput);
        }
        if !check_rect(&map, row_length) {
            return Err(GridError::MalformedInput);
        }
        let (s_pos, e_pos) = match scan_markers(&map, row_length) {
            Ok(se) => se,
            Err(e) => {
                return Err(e);
            },
        };
        let arena = build_nodes(&map, row_length);
        let mut height_map = HeightMap { arena, start: s_pos, end: e_pos, row_length };
        proof {
            let rl = row_length as int;
            assert((rows as int) * rl % rl == 0) by (nonlinear_arith)
                requires rl >= 1;
            assert(rl <= (rows as int) * rl) by (nonlinear_arith)
                requires rows >= 1, rl >= 1;
            assert(forall|i: int|
                0 <= i < height_map.arena.len() ==> 'a' as u32 <= (
                #[trigger] height_map.arena@[i]).height as u32 <= 'z' as u32) by {
                assert forall|i: int| 0 <= i < height_map.arena.len() implies 'a' as u32 <= (
                #[trigger] height_map.arena@[i]).height as u32 <= 'z' as u32 by {
                    lemma_index_decompose(i, rl, rows as int);
                    assert(g[i / rl].len() == row_length);
                    assert(cell_ok(g[i / rl][i % rl]));
                }
            }
            assert(height_map.base_wf());
        }
        height_map.find_neighbors();
        Ok(height_map)
    }

    /// Fill in every node's neighbour list. The arena must already hold all
    /// nodes (with empty lists), since each edge test reads the candidate
    /// neighbour's elevation.
    pub fn find_neighbors(&mut self)
        requires
            old(self).base_wf(),
            forall|i: int|
                0 <= i < old(self).arena.len() ==> (#[trigger] old(self).arena@[i]).neighbors@
                    == Seq::<usize>::empty(),
        ensures
            final(self).wf(),
            final(self).heights() == old(self).heights(),
            final(self).start == old(self).start,
            final(self).end == old(self).end,
            final(self).row_length == old(self).row_length,
            final(self).arena.len() == old(self).arena.len(),
            forall|i: int|
                0 <= i < old(self).arena.len() ==> {
                    &&& (#[trigger] final(self).arena@[i]).x == old(self).arena@[i].x
                    &&& final(self).arena@[i].y == old(self).arena@[i].y
                    &&& final(self).arena@[i].height == old(self).arena@[i].height
                },
    {
        let n = self.arena.len();
        let mut i: usize = 0;
        while i < n
            invariant
                self.base_wf(),
                n == self.arena.len(),
                i <= n,
                self.heights() =~= old(self).heights(),
                self.start == old(self).start,
                self.end == old(self).end,
                self.row_length == old(self).row_length,
                self.arena.len() == old(self).arena.len(),
                forall|j: int|
                    0 <= j < n ==> {
                        &&& (#[trigger] self.arena@[j]).x == old(self).arena@[j].x
                        &&& self.arena@[j].y == old(self).arena@[j].y
                        &&& self.arena@[j].height == old(self).arena@[j].height
                    },
                forall|j: int|
                    0 <= j < i ==> (#[trigger] self.arena@[j]).neighbors@ == nbr_seq(
                        self.heights(),
                        self.row_length as int,
                        j,
                    ),
                forall|j: int|
                    i <= j < n ==> (#[trigger] self.arena@[j]).neighbors@
                        == Seq::<usize>::empty(),
            decreases n - i,
        {
            self.find_node_neighbors(i);
            i = i + 1;
        }
    }

    /// Compute one node's neighbour list, checking north, south, west and
    /// east in that order.
    pub fn find_node_neighbors(&mut self, node: usize)
        requires
            old(self).base_wf(),
            node < old(self).arena.len(),
            old(self).arena@[node as int].neighbors@ == Seq::<usize>::empty(),
        ensures
            final(self).base_wf(),
            final(self).heights() == old(self).heights(),
            final(self).start == old(self).start,
            final(self).end == old(self).end,
            final(self).row_length == old(self).row_length,
            final(self).arena.len() == old(self).arena.len(),
            final(self).arena@[node as int].neighbors@ == nbr_seq(
                old(self).heights(),
                old(self).row_length as int,
                node as int,
            ),
            final(self).arena@[node as int].x == old(self).arena@[node as int].x,
            final(self).arena@[node as int].y == old(self).arena@[node as int].y,
            final(self).arena@[node as int].height == old(self).arena@[node as int].height,
            forall|j: int|
                0 <= j < old(self).arena.len() && j != node ==> #[trigger] final(self).arena@[j]
                    == old(self).arena@[j],
    {
        let ghost hs = self.heights();
        let ghost rl = self.row_length as int;
        let height = self.arena[node].height as u32 as i32;
        // Check north
        if node >= self.row_length {
            let candidate = node - self.row_length;
            self.evaluate_neighbor(node, candidate, height);
        }
        // Check south
        if node + self.row_length < self.arena.len() {
            let candidate = node + self.row_length;
            self.evaluate_neighbor(node, candidate, height);
        }
        // Check west
        if node % self.row_length >= 1 {
            proof {
                assert(node >= 1) by (nonlinear_arith)
                    requires
                        node as int % (self.row_length as int) >= 1,
                        node >= 0,
                        self.row_length >= 1;
            }
            let candidate = node - 1;
            self.evaluate_neighbor(node, candidate, height);
        }
        // Check east
        if node + 1 < self.arena.len() && node % self.row_length + 1 < self.row_length {
            let candidate = node + 1;
            self.evaluate_neighbor(node, candidate, height);
        }
        proof {
            reveal(nbr_seq);
            assert(self.arena@[node as int].neighbors@ =~= nbr_seq(hs, rl, node as int));
        }
    }

    /// Add a directed edge from `node` to `candidate` when the candidate's
    /// elevation is at most one step above `height` (the elevation of
    /// `node`); descents of any size pass the test.
    pub fn evaluate_neighbor(&mut self, node: usize, candidate: usize, height: i32)
        requires
            old(self).base_wf(),
            node < old(self).arena.len(),
            candidate < old(self).arena.len(),
            height == old(self).arena@[node as int].height as u32,
        ensures
            final(self).base_wf(),
            final(self).heights() == old(self).heights(),
            final(self).start == old(self).start,
            final(self).end == old(self).end,
            final(self).row_length == old(self).row_length,
            final(self).arena.len() == old(self).arena.len(),
            final(self).arena@[node as int].neighbors@ == if step_ok(
                old(self).heights(),
                node as int,
                candidate as int,
            ) {
                old(self).arena@[node as int].neighbors@.push(candidate)
            } else {
                old(self).arena@[node as int].neighbors@
            },
            final(self).arena@[node as int].x == old(self).arena@[node as int].x,
            final(self).arena@[node as int].y == old(self).arena@[node as int].y,
            final(self).arena@[node as int].height == old(self).arena@[node as int].height,
            forall|j: int|
                0 <= j < old(self).arena.len() && j != node ==> #[trigger] final(self).arena@[j]
                    == old(self).arena@[j],
    {
        let candidate_height = self.arena[candidate].height as u32 as i32;
        if candidate_height - height <= 1 {
            let x = self.arena[node].x;
            let y = self.arena[node].y;
            let h = self.arena[node].height;
            let mut nbrs = copy_indices(&self.arena[node].neighbors);
            nbrs.push(candidate);
            self.arena[node] = Node { x, y, height: h, neighbors: nbrs };
            proof {
                assert(self.heights() =~= old(self).heights());
            }
        } else {
            proof {
                assert(self.heights() =~= old(self).heights());
            }
        }
    }
}

/// Parse the text into a character matrix, one row per line.
pub fn parse_height_map(data: &str) -> (r: Vec<Vec<char>>)
    ensures
        r.deep_view() == crate::text::spec_lines(data@),
{
    let lines = crate::text::lines_of(data);
    let mut map: Vec<Vec<char>> = Vec::new();
    let mut i: usize = 0;
    while i < lines.len()
        invariant
            i <= lines@.len(),
            map.deep_view() =~~= lines.deep_view().subrange(0, i as int),
        decreases lines@.len() - i,
    {
        proof {
            assert(lines@[i as int]@ == lines.deep_view()[i as int]);
        }
        let row = crate::text::chars_of(lines[i].as_str());
        let ghost old_map = map.deep_view();
        map.push(row);
        proof {
            assert(map.deep_view() =~~= old_map.push(lines.deep_view()[i as int]));
            assert(map.deep_view() =~~= lines.deep_view().subrange(0, i as int + 1));
        }
        i = i + 1;
    }
    proof {
        assert(map.deep_view() =~~= lines.deep_view());
    }
    map
}

/// A fresh vector with the same indices.
fn copy_indices(v: &Vec<usize>) -> (r: Vec<usize>)
    ensures
        r@ == v@,
{
    let mut r: Vec<usize> = Vec::new();
    let mut i: usize = 0;
    while i < v.len()
        invariant
            i <= v.len(),
            r@ == v@.subrange(0, i as int),
        decreases v.len() - i,
    {
        r.push(v[i]);
        proof {
            assert(r@ =~= v@.subrange(0, i + 1));
        }
        i = i + 1;
    }
    proof {
        assert(r@ =~= v@);
    }
    r
}

} // verus!
