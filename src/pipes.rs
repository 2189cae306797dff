//! A rectangular map of pipe tiles holding one closed loop through a start
//! tile `S`: breadth-first distances along the loop and the area it encloses.

use crate::text::{is_rectangular, lemma_rows_of, lines_of, rows_of, split_rows};
use std::collections::VecDeque;
use vstd::prelude::*;

verus! {

/// The largest number of tiles a map may have, so that distances fit in `i32`
/// and the area walk fits in `i64`.
pub const MAX_TILES: usize = 1073741824;

/// Why a map could not be built or traced.
#[derive(Debug, Clone, Copy, PartialEq, Eq, Structural)]
pub enum PipeError {
    /// No rows, rows of unequal length, or more than `MAX_TILES` tiles.
    Malformed,
    /// No tile holds `S`.
    MissingStart,
    /// The start is joined to other than exactly two neighbours, so it does not
    /// lie on a single loop.
    DegenerateStart,
    /// The search reached a tile whose symbol is not a pipe symbol.
    UndefinedSymbol,
    /// The walk around the loop found no tile to go on to.
    BrokenLoop,
}

// ---------------------------------------------------------------------------
// Grid shapes
// ---------------------------------------------------------------------------

/// The shape a well-formed map has.
pub open spec fn fits_grid(g: Seq<Seq<char>>) -> bool {
    &&& is_rectangular(g)
    &&& g.len() * g[0].len() <= MAX_TILES
}

/// `d` has the shape of `g`.
pub open spec fn same_shape(g: Seq<Seq<char>>, d: Seq<Seq<i32>>) -> bool {
    &&& d.len() == g.len()
    &&& forall|r: int| 0 <= r < d.len() ==> #[trigger] d[r].len() == g[r].len()
}

// ---------------------------------------------------------------------------
// Symbols and moves
// ---------------------------------------------------------------------------

/// Row offset of direction `k`: 0 east, 1 north, 2 south, 3 west.
pub open spec fn off_r(k: int) -> int {
    if k == 1 {
        -1
    } else if k == 2 {
        1
    } else {
        0
    }
}

/// Column offset of direction `k`: 0 east, 1 north, 2 south, 3 west.
pub open spec fn off_c(k: int) -> int {
    if k == 0 {
        1
    } else if k == 3 {
        -1
    } else {
        0
    }
}

/// `(dr, dc)` is one step in one of the four directions.
pub open spec fn is_unit(dr: int, dc: int) -> bool {
    (dr == 0 && (dc == 1 || dc == -1)) || (dc == 0 && (dr == 1 || dr == -1))
}

/// The direction whose offsets are `(dr, dc)`.
pub open spec fn dir_of(dr: int, dc: int) -> int {
    if dc == 1 {
        0
    } else if dr == -1 {
        1
    } else if dr == 1 {
        2
    } else {
        3
    }
}

/// The symbols of a pipe map that a search can expand.
pub open spec fn is_symbol(c: char) -> bool {
    c == 'S' || c == '|' || c == '-' || c == 'L' || c == 'J' || c == '7' || c == 'F'
}

/// A tile with symbol `c` opens towards direction `k`; the start opens every way.
pub open spec fn exits(c: char, k: int) -> bool {
    if c == 'S' {
        0 <= k < 4
    } else if c == '|' {
        k == 1 || k == 2
    } else if c == '-' {
        k == 0 || k == 3
    } else if c == 'L' {
        k == 1 || k == 0
    } else if c == 'J' {
        k == 1 || k == 3
    } else if c == '7' {
        k == 2 || k == 3
    } else if c == 'F' {
        k == 2 || k == 0
    } else {
        false
    }
}

/// A tile with symbol `c` has no opening towards a step in direction `k`.
pub open spec fn blocks(c: char, k: int) -> bool {
    if k == 0 {
        c == '|' || c == 'F' || c == 'L'
    } else if k == 3 {
        c == '|' || c == 'J' || c == '7'
    } else if k == 1 {
        c == '-' || c == 'L' || c == 'J'
    } else {
        c == '-' || c == '7' || c == 'F'
    }
}

pub open spec fn in_bounds(g: Seq<Seq<char>>, r: int, c: int) -> bool {
    0 <= r < g.len() && 0 <= c < g[r].len()
}

/// `(r, c)` lies on the map and holds something other than ground.
pub open spec fn is_pipe_at(g: Seq<Seq<char>>, r: int, c: int) -> bool {
    in_bounds(g, r, c) && g[r][c] != '.'
}

/// From `(r, c)` a step in direction `k` lands on a tile that accepts it.
pub open spec fn can_enter(g: Seq<Seq<char>>, r: int, c: int, k: int) -> bool {
    &&& is_pipe_at(g, r + off_r(k), c + off_c(k))
    &&& !blocks(g[r + off_r(k)][c + off_c(k)], k)
}

/// The pipe at `(r, c)` leads in direction `k` into a tile that joins it.
pub open spec fn edge(g: Seq<Seq<char>>, r: int, c: int, k: int) -> bool {
    &&& in_bounds(g, r, c)
    &&& 0 <= k < 4
    &&& exits(g[r][c], k)
    &&& can_enter(g, r, c, k)
}

pub open spec fn has_start(g: Seq<Seq<char>>) -> bool {
    exists|r: int, c: int| #[trigger] in_bounds(g, r, c) && g[r][c] == 'S'
}

/// `(r, c)` is the first `S` in row-major order.
pub open spec fn is_first_start(g: Seq<Seq<char>>, r: int, c: int) -> bool {
    &&& in_bounds(g, r, c)
    &&& g[r][c] == 'S'
    &&& forall|r2: int, c2: int|
        #[trigger] in_bounds(g, r2, c2) && g[r2][c2] == 'S' ==> r < r2 || (r == r2 && c <= c2)
}

/// A tile of a well-formed grid has coordinates below `MAX_TILES`.
proof fn lemma_coords_fit(g: Seq<Seq<char>>, r: int, c: int)
    requires
        fits_grid(g),
        in_bounds(g, r, c),
    ensures
        r < MAX_TILES,
        c < MAX_TILES,
        r < g.len() * g[0].len(),
{
    assert(g[r].len() == g[0].len());
    assert(r < g.len() * g[0].len() && c < g.len() * g[0].len()) by (nonlinear_arith)
        requires
            0 <= r < g.len(),
            0 <= c < g[0].len(),
    ;
}

// ---------------------------------------------------------------------------
// Distance maps
// ---------------------------------------------------------------------------

/// `d` with the entry at `(r, c)` set to `v`.
pub open spec fn set_at(d: Seq<Seq<i32>>, r: int, c: int, v: i32) -> Seq<Seq<i32>> {
    d.update(r, d[r].update(c, v))
}

proof fn lemma_set_at(d: Seq<Seq<i32>>, r: int, c: int, v: i32)
    requires
        0 <= r < d.len(),
        0 <= c < d[r].len(),
    ensures
        set_at(d, r, c, v).len() == d.len(),
        forall|i: int| 0 <= i < d.len() ==> #[trigger] set_at(d, r, c, v)[i].len() == d[i].len(),
        forall|i: int, j: int|
            0 <= i < d.len() && 0 <= j < d[i].len() ==> #[trigger] set_at(d, r, c, v)[i][j] == if i
                == r && j == c {
                v
            } else {
                d[i][j]
            },
{
}

/// Every entry of `d` on the map is `-1`.
pub open spec fn is_clean(g: Seq<Seq<char>>, d: Seq<Seq<i32>>) -> bool {
    &&& same_shape(g, d)
    &&& forall|r: int, c: int| #[trigger] in_bounds(g, r, c) ==> d[r][c] == -1
}

/// Every step out of a reached tile lands on a reached tile at most one further.
pub open spec fn is_closed(g: Seq<Seq<char>>, d: Seq<Seq<i32>>) -> bool {
    forall|r: int, c: int, k: int|
        #[trigger] edge(g, r, c, k) && d[r][c] >= 0 ==> {
            &&& d[r + off_r(k)][c + off_c(k)] >= 0
            &&& d[r + off_r(k)][c + off_c(k)] <= d[r][c] + 1
        }
}

/// `(r, c)` is one step, in some direction, beyond a reached tile one nearer.
pub open spec fn has_pred(g: Seq<Seq<char>>, d: Seq<Seq<i32>>, r: int, c: int) -> bool {
    exists|k: int|
        #[trigger] edge(g, r - off_r(k), c - off_c(k), k) && d[r - off_r(k)][c - off_c(k)] + 1
            == d[r][c]
}

/// Every reached tile but the one at distance zero is one step beyond a reached tile.
pub open spec fn is_supported(g: Seq<Seq<char>>, d: Seq<Seq<i32>>) -> bool {
    forall|r: int, c: int| in_bounds(g, r, c) && d[r][c] > 0 ==> #[trigger] has_pred(g, d, r, c)
}

/// `d` holds, for each tile, its breadth-first distance from `(sr, sc)` along
/// the steps of `edge`, and `-1` where no step leads; every reached tile holds
/// a pipe symbol.
pub open spec fn is_bfs_map(g: Seq<Seq<char>>, sr: int, sc: int, d: Seq<Seq<i32>>) -> bool {
    &&& same_shape(g, d)
    &&& in_bounds(g, sr, sc)
    &&& d[sr][sc] == 0
    &&& forall|r: int, c: int| #[trigger] in_bounds(g, r, c) ==> d[r][c] >= -1
    &&& forall|r: int, c: int| #[trigger] in_bounds(g, r, c) && d[r][c] == 0 ==> r == sr && c == sc
    &&& forall|r: int, c: int|
        #[trigger] in_bounds(g, r, c) && d[r][c] >= 0 ==> is_symbol(g[r][c])
    &&& is_closed(g, d)
    &&& is_supported(g, d)
}

/// `m` is the largest entry of `d` on the map.
pub open spec fn is_max_of(g: Seq<Seq<char>>, d: Seq<Seq<i32>>, m: int) -> bool {
    &&& forall|r: int, c: int| #[trigger] in_bounds(g, r, c) ==> d[r][c] <= m
    &&& exists|r: int, c: int| #[trigger] in_bounds(g, r, c) && d[r][c] == m
}

// ---------------------------------------------------------------------------
// Counting entries
// ---------------------------------------------------------------------------

pub open spec fn count_row(row: Seq<i32>, v: i32) -> nat
    decreases row.len(),
{
    if row.len() == 0 {
        0
    } else {
        count_row(row.drop_last(), v) + if row.last() == v {
            1nat
        } else {
            0nat
        }
    }
}

/// How many entries of `d` equal `v`.
pub open spec fn count_of(d: Seq<Seq<i32>>, v: i32) -> nat
    decreases d.len(),
{
    if d.len() == 0 {
        0
    } else {
        count_of(d.drop_last(), v) + count_row(d.last(), v)
    }
}

proof fn lemma_count_row_update(row: Seq<i32>, j: int, x: i32, v: i32)
    requires
        0 <= j < row.len(),
    ensures
        count_row(row.update(j, x), v) + (if row[j] == v { 1int } else { 0int }) == count_row(
            row,
            v,
        ) + (if x == v { 1int } else { 0int }),
    decreases row.len(),
{
    if j == row.len() - 1 {
        assert(row.update(j, x).drop_last() =~= row.drop_last());
    } else {
        lemma_count_row_update(row.drop_last(), j, x, v);
        assert(row.update(j, x).drop_last() =~= row.drop_last().update(j, x));
    }
}

proof fn lemma_count_update(d: Seq<Seq<i32>>, r: int, c: int, x: i32, v: i32)
    requires
        0 <= r < d.len(),
        0 <= c < d[r].len(),
    ensures
        count_of(set_at(d, r, c, x), v) + (if d[r][c] == v { 1int } else { 0int }) == count_of(
            d,
            v,
        ) + (if x == v { 1int } else { 0int }),
    decreases d.len(),
{
    lemma_count_row_update(d[r], c, x, v);
    if r == d.len() - 1 {
        assert(set_at(d, r, c, x).drop_last() =~= d.drop_last());
    } else {
        lemma_count_update(d.drop_last(), r, c, x, v);
        assert(set_at(d, r, c, x).drop_last() =~= set_at(d.drop_last(), r, c, x));
    }
}

proof fn lemma_count_row_bound(row: Seq<i32>, v: i32)
    ensures
        count_row(row, v) <= row.len(),
    decreases row.len(),
{
    if row.len() > 0 {
        lemma_count_row_bound(row.drop_last(), v);
    }
}

proof fn lemma_count_bound(d: Seq<Seq<i32>>, w: int, v: i32)
    requires
        forall|r: int| 0 <= r < d.len() ==> #[trigger] d[r].len() == w,
    ensures
        count_of(d, v) <= d.len() * w,
    decreases d.len(),
{
    if d.len() > 0 {
        lemma_count_bound(d.drop_last(), w, v);
        lemma_count_row_bound(d.last(), v);
        assert(d.len() * w == (d.len() - 1) * w + w) by (nonlinear_arith);
    }
}

proof fn lemma_count_row_all(row: Seq<i32>, v: i32)
    requires
        forall|j: int| 0 <= j < row.len() ==> row[j] == v,
    ensures
        count_row(row, v) == row.len(),
    decreases row.len(),
{
    if row.len() > 0 {
        lemma_count_row_all(row.drop_last(), v);
    }
}

proof fn lemma_count_all(d: Seq<Seq<i32>>, w: int, v: i32)
    requires
        forall|r: int| 0 <= r < d.len() ==> #[trigger] d[r].len() == w,
        forall|r: int, c: int| 0 <= r < d.len() && 0 <= c < w ==> d[r][c] == v,
    ensures
        count_of(d, v) == d.len() * w,
    decreases d.len(),
{
    if d.len() > 0 {
        lemma_count_all(d.drop_last(), w, v);
        lemma_count_row_all(d.last(), v);
        assert(d.len() * w == (d.len() - 1) * w + w) by (nonlinear_arith);
    }
}

// ---------------------------------------------------------------------------
// Breadth-first maps are unique
// ---------------------------------------------------------------------------

/// A map `d1` whose reached tiles are all one step beyond a reached tile, from a
/// single zero at `(sr, sc)`, reaches nothing that a closed map `d2` from the
/// same tile leaves out, and `d2` is never the larger.
proof fn lemma_reached_within(
    g: Seq<Seq<char>>,
    sr: int,
    sc: int,
    d1: Seq<Seq<i32>>,
    d2: Seq<Seq<i32>>,
    n: nat,
)
    requires
        same_shape(g, d1),
        same_shape(g, d2),
        in_bounds(g, sr, sc),
        d2[sr][sc] == 0,
        forall|r: int, c: int| #[trigger] in_bounds(g, r, c) && d1[r][c] == 0 ==> r == sr && c == sc,
        is_supported(g, d1),
        is_closed(g, d2),
    ensures
        forall|r: int, c: int|
            #[trigger] in_bounds(g, r, c) && 0 <= d1[r][c] <= n ==> 0 <= d2[r][c] <= d1[r][c],
    decreases n,
{
    if n > 0 {
        lemma_reached_within(g, sr, sc, d1, d2, (n - 1) as nat);
    }
    assert forall|r: int, c: int| #[trigger] in_bounds(g, r, c) && 0 <= d1[r][c] <= n implies 0
        <= d2[r][c] <= d1[r][c] by {
        if d1[r][c] > 0 && d1[r][c] == n {
            assert(has_pred(g, d1, r, c));
            let k = choose|k: int|
                #[trigger] edge(g, r - off_r(k), c - off_c(k), k) && d1[r - off_r(k)][c - off_c(
                    k,
                )] + 1 == d1[r][c];
            let pr = r - off_r(k);
            let pc = c - off_c(k);
            assert(in_bounds(g, pr, pc));
            assert(edge(g, pr, pc, k));
            assert(pr + off_r(k) == r && pc + off_c(k) == c);
        }
    }
}

/// Two breadth-first maps of one grid from one start are equal.
pub proof fn lemma_bfs_map_unique(
    g: Seq<Seq<char>>,
    sr: int,
    sc: int,
    d1: Seq<Seq<i32>>,
    d2: Seq<Seq<i32>>,
)
    requires
        is_bfs_map(g, sr, sc, d1),
        is_bfs_map(g, sr, sc, d2),
    ensures
        d1 == d2,
{
    assert forall|r: int, c: int| #[trigger] in_bounds(g, r, c) implies d1[r][c] == d2[r][c] by {
        if d1[r][c] >= 0 {
            lemma_reached_within(g, sr, sc, d1, d2, d1[r][c] as nat);
        }
        if d2[r][c] >= 0 {
            lemma_reached_within(g, sr, sc, d2, d1, d2[r][c] as nat);
        }
    }
    assert forall|r: int| 0 <= r < d1.len() implies d1[r] =~= d2[r] by {
        assert forall|c: int| 0 <= c < d1[r].len() implies d1[r][c] == d2[r][c] by {
            assert(in_bounds(g, r, c));
        }
    }
    assert(d1 =~= d2);
}

/// Searching a grid again, or a fresh copy of it, yields the same distance map:
/// any two breadth-first maps from the grid's first start are equal, and so are
/// the maps that two successful runs of `PipeMap::search_farthest` leave.
pub proof fn lemma_search_repeatable(
    g: Seq<Seq<char>>,
    r1: int,
    c1: int,
    d1: Seq<Seq<i32>>,
    r2: int,
    c2: int,
    d2: Seq<Seq<i32>>,
)
    requires
        is_first_start(g, r1, c1),
        is_bfs_map(g, r1, c1, d1),
        is_first_start(g, r2, c2),
        is_bfs_map(g, r2, c2, d2),
    ensures
        d1 == d2,
{
    lemma_first_start_unique(g, r1, c1, r2, c2);
    lemma_bfs_map_unique(g, r1, c1, d1, d2);
}

/// The place after `i` around a loop of length `n`.
pub open spec fn loop_next(i: int, n: int) -> int {
    if i + 1 == n {
        0
    } else {
        i + 1
    }
}

/// The place before `i` around a loop of length `n`.
pub open spec fn loop_prev(i: int, n: int) -> int {
    if i == 0 {
        n - 1
    } else {
        i - 1
    }
}

/// The tile `k` steps from `p` is `q`.
pub open spec fn steps_to(p: (int, int), k: int, q: (int, int)) -> bool {
    p.0 + off_r(k) == q.0 && p.1 + off_c(k) == q.1
}

/// `c` is one simple loop of pipes: distinct tiles, each joined both ways to the
/// next one around, and no tile of it joined to any tile but its two neighbours.
pub open spec fn is_single_loop(g: Seq<Seq<char>>, c: Seq<(int, int)>) -> bool {
    let n = c.len() as int;
    &&& n >= 3
    &&& forall|i: int, j: int| 0 <= i < n && 0 <= j < n && #[trigger] c[i] == #[trigger] c[j] ==> i == j
    &&& forall|i: int| 0 <= i < n ==> in_bounds(g, #[trigger] c[i].0, c[i].1)
    &&& forall|i: int|
        #![trigger c[i]]
        0 <= i < n ==> exists|k: int|
            #[trigger] edge(g, c[i].0, c[i].1, k) && steps_to(c[i], k, c[loop_next(i, n)])
    &&& forall|i: int|
        #![trigger c[i]]
        0 <= i < n ==> exists|k: int|
            #[trigger] edge(g, c[loop_next(i, n)].0, c[loop_next(i, n)].1, k) && steps_to(
                c[loop_next(i, n)],
                k,
                c[i],
            )
    &&& forall|i: int, k: int|
        0 <= i < n && #[trigger] edge(g, c[i].0, c[i].1, k) ==> steps_to(c[i], k, c[loop_next(i, n)])
            || steps_to(c[i], k, c[loop_prev(i, n)])
}

/// How far place `i` lies from place 0 around a loop of length `n`, the shorter way.
pub open spec fn around(i: int, n: int) -> int {
    if i <= n - i {
        i
    } else {
        n - i
    }
}

proof fn lemma_loop_upper_forward(g: Seq<Seq<char>>, sr: int, sc: int, d: Seq<Seq<i32>>, c: Seq<(int, int)>, i: int)
    requires
        is_bfs_map(g, sr, sc, d),
        is_single_loop(g, c),
        c[0] == (sr, sc),
        0 <= i < c.len(),
    ensures
        0 <= d[c[i].0][c[i].1] <= i,
    decreases i,
{
    if i > 0 {
        lemma_loop_upper_forward(g, sr, sc, d, c, i - 1);
        let p = c[i - 1];
        assert(loop_next(i - 1, c.len() as int) == i);
        let k = choose|k: int| #[trigger] edge(g, p.0, p.1, k) && steps_to(p, k, c[loop_next(i - 1, c.len() as int)]);
        assert(edge(g, p.0, p.1, k));
    }
}

proof fn lemma_loop_upper_backward(g: Seq<Seq<char>>, sr: int, sc: int, d: Seq<Seq<i32>>, c: Seq<(int, int)>, j: int)
    requires
        is_bfs_map(g, sr, sc, d),
        is_single_loop(g, c),
        c[0] == (sr, sc),
        1 <= j <= c.len(),
    ensures
        0 <= d[c[c.len() - j].0][c[c.len() - j].1] <= j,
    decreases j,
{
    let n = c.len() as int;
    let i = n - j;
    let q = c[loop_next(i, n)];
    if j > 1 {
        lemma_loop_upper_backward(g, sr, sc, d, c, j - 1);
        assert(loop_next(i, n) == n - (j - 1));
    } else {
        assert(loop_next(i, n) == 0);
    }
    assert(0 <= i < n);
    let k = choose|k: int| #[trigger] edge(g, q.0, q.1, k) && steps_to(q, k, c[i]);
    assert(edge(g, q.0, q.1, k));
}

#[verifier::spinoff_prover]
proof fn lemma_loop_reached(
    g: Seq<Seq<char>>,
    sr: int,
    sc: int,
    d: Seq<Seq<i32>>,
    c: Seq<(int, int)>,
    r: int,
    col: int,
) -> (i: int)
    requires
        is_bfs_map(g, sr, sc, d),
        is_single_loop(g, c),
        c[0] == (sr, sc),
        in_bounds(g, r, col),
        d[r][col] >= 0,
    ensures
        0 <= i < c.len(),
        c[i] == (r, col),
        around(i, c.len() as int) <= d[r][col],
    decreases d[r][col],
{
    let n = c.len() as int;
    if d[r][col] == 0 {
        0
    } else {
        assert(has_pred(g, d, r, col));
        let k = choose|k: int|
            #[trigger] edge(g, r - off_r(k), col - off_c(k), k) && d[r - off_r(k)][col - off_c(k)] + 1 == d[r][col];
        let ur = r - off_r(k);
        let uc = col - off_c(k);
        assert(edge(g, ur, uc, k));
        let i0 = lemma_loop_reached(g, sr, sc, d, c, ur, uc);
        let j = lemma_loop_step(g, c, i0, k);
        lemma_around_step(i0, j, n);
        j
    }
}

/// A step out of the `i`-th tile of a single loop lands on the tile before or after it.
proof fn lemma_loop_step(g: Seq<Seq<char>>, c: Seq<(int, int)>, i: int, k: int) -> (j: int)
    requires
        is_single_loop(g, c),
        0 <= i < c.len(),
        edge(g, c[i].0, c[i].1, k),
    ensures
        j == loop_next(i, c.len() as int) || j == loop_prev(i, c.len() as int),
        0 <= j < c.len(),
        steps_to(c[i], k, c[j]),
{
    if steps_to(c[i], k, c[loop_next(i, c.len() as int)]) {
        loop_next(i, c.len() as int)
    } else {
        loop_prev(i, c.len() as int)
    }
}

proof fn lemma_around_step(i: int, j: int, n: int)
    requires
        n >= 3,
        0 <= i < n,
        j == loop_next(i, n) || j == loop_prev(i, n),
    ensures
        around(j, n) <= around(i, n) + 1,
{
}

/// On a grid whose start lies on a single loop `c` (listed from the start), the
/// breadth-first map holds for the `i`-th tile of the loop the shorter way round
/// to it, so walking the loop either way meets the same distances: the `i`-th
/// tile and the `i`-th from the end are equally far. No other tile is reached.
pub proof fn lemma_loop_distances_symmetric(
    g: Seq<Seq<char>>,
    sr: int,
    sc: int,
    d: Seq<Seq<i32>>,
    c: Seq<(int, int)>,
)
    requires
        is_bfs_map(g, sr, sc, d),
        is_single_loop(g, c),
        c[0] == (sr, sc),
    ensures
        forall|i: int| #![trigger c[i]] 0 <= i < c.len() ==> d[c[i].0][c[i].1] == around(i, c.len() as int),
        forall|i: int| #![trigger c[i]] 0 < i < c.len() ==> d[c[i].0][c[i].1] == d[c[c.len() - i].0][c[c.len() - i].1],
        forall|r: int, col: int|
            #[trigger] in_bounds(g, r, col) && d[r][col] >= 0 ==> exists|i: int| 0 <= i < c.len() && #[trigger] c[i] == (r, col),
{
    let n = c.len() as int;
    assert forall|i: int| #![trigger c[i]] 0 <= i < n implies d[c[i].0][c[i].1] == around(i, n) by {
        lemma_loop_upper_forward(g, sr, sc, d, c, i);
        if i > 0 {
            lemma_loop_upper_backward(g, sr, sc, d, c, n - i);
        }
        let v = c[i];
        assert(in_bounds(g, v.0, v.1));
        let i2 = lemma_loop_reached(g, sr, sc, d, c, v.0, v.1);
        assert(c[i2] == c[i]);
    }
    assert forall|i: int| #![trigger c[i]] 0 < i < n implies d[c[i].0][c[i].1] == d[c[n - i].0][c[n - i].1] by {
        assert(d[c[i].0][c[i].1] == around(i, n));
        assert(d[c[n - i].0][c[n - i].1] == around(n - i, n));
    }
    assert forall|r: int, col: int| #[trigger] in_bounds(g, r, col) && d[r][col] >= 0 implies exists|i: int|
        0 <= i < n && #[trigger] c[i] == (r, col) by {
        let i2 = lemma_loop_reached(g, sr, sc, d, c, r, col);
        assert(c[i2] == (r, col));
    }
}

/// 1 where a step from `(r, c)` in direction `k` enters a tile that joins it, else 0.
pub open spec fn joined(g: Seq<Seq<char>>, r: int, c: int, k: int) -> int {
    if can_enter(g, r, c, k) {
        1
    } else {
        0
    }
}

/// How many neighbours of `(r, c)` join it.
pub open spec fn start_degree(g: Seq<Seq<char>>, r: int, c: int) -> int {
    joined(g, r, c, 0) + joined(g, r, c, 1) + joined(g, r, c, 2) + joined(g, r, c, 3)
}

/// `(r, col)` is one of the tiles of `c`.
pub open spec fn on_loop(c: Seq<(int, int)>, r: int, col: int) -> bool {
    exists|i: int| 0 <= i < c.len() && #[trigger] c[i] == (r, col)
}

/// Where `(r, col)` stands in `c`.
pub open spec fn loop_index(c: Seq<(int, int)>, r: int, col: int) -> int {
    choose|i: int| 0 <= i < c.len() && #[trigger] c[i] == (r, col)
}

/// The distance map of a single loop `c` listed from its start: each of its tiles
/// the shorter way round from the start, every other tile unreached.
pub open spec fn loop_map(g: Seq<Seq<char>>, c: Seq<(int, int)>) -> Seq<Seq<i32>> {
    Seq::new(
        g.len(),
        |r: int|
            Seq::new(
                g[r].len(),
                |col: int|
                    if on_loop(c, r, col) {
                        around(loop_index(c, r, col), c.len() as int) as i32
                    } else {
                        -1i32
                    },
            ),
    )
}

proof fn lemma_loop_map_at(g: Seq<Seq<char>>, c: Seq<(int, int)>, i: int)
    requires
        is_single_loop(g, c),
        c.len() <= MAX_TILES,
        0 <= i < c.len(),
    ensures
        loop_map(g, c)[c[i].0][c[i].1] == around(i, c.len() as int),
{
    assert(in_bounds(g, c[i].0, c[i].1));
    assert(on_loop(c, c[i].0, c[i].1));
    let j = loop_index(c, c[i].0, c[i].1);
    assert(c[j] == c[i]);
}

/// A single loop of pipe symbols through the start has a breadth-first map: the
/// shorter way round to each of its tiles. So a search from that start reports no
/// tile without a pipe symbol.
#[verifier::spinoff_prover]
pub proof fn lemma_single_loop_has_bfs_map(g: Seq<Seq<char>>, c: Seq<(int, int)>)
    requires
        is_single_loop(g, c),
        c.len() <= MAX_TILES,
        forall|i: int| 0 <= i < c.len() ==> is_symbol(g[#[trigger] c[i].0][c[i].1]),
    ensures
        is_bfs_map(g, c[0].0, c[0].1, loop_map(g, c)),
{
    let n = c.len() as int;
    let d = loop_map(g, c);
    assert(in_bounds(g, c[0].0, c[0].1));
    lemma_loop_map_at(g, c, 0);
    assert forall|r: int| 0 <= r < d.len() implies #[trigger] d[r].len() == g[r].len() by {}
    assert forall|r: int, col: int| #[trigger] in_bounds(g, r, col) implies d[r][col] >= -1 by {
        if on_loop(c, r, col) {
            lemma_loop_map_at(g, c, loop_index(c, r, col));
        }
    }
    assert forall|r: int, col: int| #[trigger] in_bounds(g, r, col) && d[r][col] == 0 implies r == c[0].0
        && col == c[0].1 by {
        if on_loop(c, r, col) {
            let i = loop_index(c, r, col);
            lemma_loop_map_at(g, c, i);
        }
    }
    assert forall|r: int, col: int| #[trigger] in_bounds(g, r, col) && d[r][col] >= 0 implies is_symbol(
        g[r][col],
    ) by {
        if on_loop(c, r, col) {
            let i = loop_index(c, r, col);
            assert(is_symbol(g[c[i].0][c[i].1]));
        }
    }
    lemma_loop_map_closed(g, c);
    lemma_loop_map_supported(g, c);
}

/// On a single loop of `n` tiles the farthest distance from the start is `n / 2`,
/// and by the uniqueness of breadth-first maps a successful search from that
/// start returns it.
pub proof fn lemma_single_loop_farthest(g: Seq<Seq<char>>, c: Seq<(int, int)>)
    requires
        is_single_loop(g, c),
        c.len() <= MAX_TILES,
    ensures
        is_max_of(g, loop_map(g, c), c.len() as int / 2),
{
    let n = c.len() as int;
    let d = loop_map(g, c);
    assert forall|r: int, col: int| #[trigger] in_bounds(g, r, col) implies d[r][col] <= n / 2 by {
        if on_loop(c, r, col) {
            lemma_loop_map_at(g, c, loop_index(c, r, col));
        }
    }
    lemma_loop_map_at(g, c, n / 2);
    assert(in_bounds(g, c[n / 2].0, c[n / 2].1));
}

#[verifier::spinoff_prover]
proof fn lemma_loop_map_closed(g: Seq<Seq<char>>, c: Seq<(int, int)>)
    requires
        is_single_loop(g, c),
        c.len() <= MAX_TILES,
    ensures
        is_closed(g, loop_map(g, c)),
{
    let n = c.len() as int;
    let d = loop_map(g, c);
    assert forall|r: int, col: int, k: int| #[trigger] edge(g, r, col, k) && d[r][col] >= 0 implies {
        &&& d[r + off_r(k)][col + off_c(k)] >= 0
        &&& d[r + off_r(k)][col + off_c(k)] <= d[r][col] + 1
    } by {
        assert(on_loop(c, r, col));
        let i = loop_index(c, r, col);
        lemma_loop_map_at(g, c, i);
        let j = lemma_loop_step(g, c, i, k);
        lemma_loop_map_at(g, c, j);
        lemma_around_step(i, j, n);
    }
}

#[verifier::spinoff_prover]
proof fn lemma_loop_map_supported(g: Seq<Seq<char>>, c: Seq<(int, int)>)
    requires
        is_single_loop(g, c),
        c.len() <= MAX_TILES,
    ensures
        is_supported(g, loop_map(g, c)),
{
    let n = c.len() as int;
    let d = loop_map(g, c);
    assert forall|r: int, col: int| in_bounds(g, r, col) && d[r][col] > 0 implies #[trigger] has_pred(
        g,
        d,
        r,
        col,
    ) by {
        assert(on_loop(c, r, col));
        let i = loop_index(c, r, col);
        lemma_loop_map_at(g, c, i);
        if i <= n - i {
            let p = c[i - 1];
            assert(loop_next(i - 1, n) == i);
            let k = choose|k: int| #[trigger] edge(g, p.0, p.1, k) && steps_to(p, k, c[loop_next(i - 1, n)]);
            lemma_loop_map_at(g, c, i - 1);
            assert(edge(g, r - off_r(k), col - off_c(k), k));
        } else {
            let q = c[loop_next(i, n)];
            lemma_loop_map_at(g, c, loop_next(i, n));
            let k = choose|k: int| #[trigger] edge(g, q.0, q.1, k) && steps_to(q, k, c[i]);
            assert(edge(g, r - off_r(k), col - off_c(k), k));
        }
    }
}

/// A grid has at most one first start.
proof fn lemma_first_start_unique(g: Seq<Seq<char>>, r1: int, c1: int, r2: int, c2: int)
    requires
        is_first_start(g, r1, c1),
        is_first_start(g, r2, c2),
    ensures
        r1 == r2 && c1 == c2,
{
    assert(in_bounds(g, r1, c1) && in_bounds(g, r2, c2));
}

// ---------------------------------------------------------------------------
// The search
// ---------------------------------------------------------------------------

/// `(r, c)` waits in the frontier `q`.
pub open spec fn queued(q: Seq<(usize, usize)>, r: int, c: int) -> bool {
    exists|i: int| 0 <= i < q.len() && #[trigger] q[i].0 == r && q[i].1 == c
}

/// `d1`, `q1` follow `d0`, `q0` by one attempted step from `(r, c)` in direction
/// `k`: an enterable unreached tile gets the next distance and joins the frontier.
pub open spec fn step_taken(
    g: Seq<Seq<char>>,
    d0: Seq<Seq<i32>>,
    q0: Seq<(usize, usize)>,
    d1: Seq<Seq<i32>>,
    q1: Seq<(usize, usize)>,
    r: int,
    c: int,
    k: int,
) -> bool {
    let nr = r + off_r(k);
    let nc = c + off_c(k);
    if can_enter(g, r, c, k) && d0[nr][nc] == -1 {
        &&& d1 == set_at(d0, nr, nc, (d0[r][c] + 1) as i32)
        &&& q1 == q0.push((nr as usize, nc as usize))
    } else {
        &&& d1 == d0
        &&& q1 == q0
    }
}

/// The step from `(r, c)` in direction `k`, if it is one, reaches a tile at most
/// one beyond `(r, c)`.
pub open spec fn handled(g: Seq<Seq<char>>, d: Seq<Seq<i32>>, r: int, c: int, k: int) -> bool {
    edge(g, r, c, k) ==> {
        &&& d[r + off_r(k)][c + off_c(k)] >= 0
        &&& d[r + off_r(k)][c + off_c(k)] <= d[r][c] + 1
    }
}

/// Distances lie in `-1 ..= du + 1` and below the number of reached tiles.
#[verifier::opaque]
pub open spec fn bounded(g: Seq<Seq<char>>, d: Seq<Seq<i32>>, du: int) -> bool {
    let reached = g.len() * g[0].len() - count_of(d, -1i32);
    forall|r: int, c: int|
        #[trigger] in_bounds(g, r, c) ==> -1 <= d[r][c] <= du + 1 && d[r][c] < reached
}

/// Only `(sr, sc)` is at distance zero.
#[verifier::opaque]
pub open spec fn zero_only_at(g: Seq<Seq<char>>, d: Seq<Seq<i32>>, sr: int, sc: int) -> bool {
    forall|r: int, c: int| #[trigger] in_bounds(g, r, c) && d[r][c] == 0 ==> r == sr && c == sc
}

/// The frontier holds tiles of the map at distance `du` or more, in order of distance.
#[verifier::opaque]
pub open spec fn queue_ordered(
    g: Seq<Seq<char>>,
    d: Seq<Seq<i32>>,
    q: Seq<(usize, usize)>,
    du: int,
) -> bool {
    &&& forall|i: int|
        0 <= i < q.len() ==> in_bounds(g, #[trigger] q[i].0 as int, q[i].1 as int) && du
            <= d[q[i].0 as int][q[i].1 as int]
    &&& forall|i: int, j: int|
        0 <= i <= j < q.len() ==> d[#[trigger] q[i].0 as int][q[i].1 as int]
            <= d[#[trigger] q[j].0 as int][q[j].1 as int]
}

/// Every reached tile out of the frontier, other than `(ur, uc)`, is expanded:
/// its steps are handled and it holds a pipe symbol.
#[verifier::opaque]
pub open spec fn expanded_except(
    g: Seq<Seq<char>>,
    d: Seq<Seq<i32>>,
    q: Seq<(usize, usize)>,
    ur: int,
    uc: int,
) -> bool {
    &&& forall|r: int, c: int, k: int|
        #[trigger] edge(g, r, c, k) && d[r][c] >= 0 && !queued(q, r, c) && !(r == ur && c == uc)
            ==> handled(g, d, r, c, k)
    &&& forall|r: int, c: int|
        #[trigger] in_bounds(g, r, c) && d[r][c] >= 0 && !queued(q, r, c) && !(r == ur && c
            == uc) ==> is_symbol(g[r][c])
}

/// What holds while the search expands `(ur, uc)`, at distance `du`, from the
/// first start `(sr, sc)`.
pub open spec fn search_inv(
    g: Seq<Seq<char>>,
    sr: int,
    sc: int,
    d: Seq<Seq<i32>>,
    q: Seq<(usize, usize)>,
    ur: int,
    uc: int,
    du: int,
) -> bool {
    &&& fits_grid(g)
    &&& same_shape(g, d)
    &&& is_first_start(g, sr, sc)
    &&& d[sr][sc] == 0
    &&& in_bounds(g, ur, uc)
    &&& d[ur][uc] == du
    &&& 0 <= du < MAX_TILES
    &&& bounded(g, d, du)
    &&& zero_only_at(g, d, sr, sc)
    &&& queue_ordered(g, d, q, du)
    &&& is_supported(g, d)
    &&& expanded_except(g, d, q, ur, uc)
}

proof fn lemma_queued_push(q: Seq<(usize, usize)>, x: (usize, usize), r: int, c: int)
    ensures
        queued(q.push(x), r, c) <==> queued(q, r, c) || (x.0 == r && x.1 == c),
{
    if queued(q, r, c) {
        let i = choose|i: int| 0 <= i < q.len() && #[trigger] q[i].0 == r && q[i].1 == c;
        assert(q.push(x)[i] == q[i]);
    }
    if x.0 == r && x.1 == c {
        assert(q.push(x)[q.len() as int] == x);
    }
    if queued(q.push(x), r, c) {
        let i = choose|i: int| 0 <= i < q.len() + 1 && #[trigger] q.push(x)[i].0 == r && q.push(x)[i].1 == c;
        if i < q.len() {
            assert(q[i] == q.push(x)[i]);
        }
    }
}

proof fn lemma_queued_drop(q: Seq<(usize, usize)>, r: int, c: int)
    requires
        q.len() > 0,
    ensures
        queued(q, r, c) ==> queued(q.drop_first(), r, c) || (q[0].0 == r && q[0].1 == c),
{
    if queued(q, r, c) {
        let i = choose|i: int| 0 <= i < q.len() && #[trigger] q[i].0 == r && q[i].1 == c;
        if i > 0 {
            assert(q.drop_first()[i - 1] == q[i]);
        }
    }
}

proof fn lemma_step_support(
    g: Seq<Seq<char>>,
    d0: Seq<Seq<i32>>,
    ur: int,
    uc: int,
    k: int,
)
    requires
        same_shape(g, d0),
        is_supported(g, d0),
        edge(g, ur, uc, k),
        0 <= d0[ur][uc] < MAX_TILES,
        d0[ur + off_r(k)][uc + off_c(k)] == -1,
    ensures
        is_supported(g, set_at(d0, ur + off_r(k), uc + off_c(k), (d0[ur][uc] + 1) as i32)),
{
    let nr = ur + off_r(k);
    let nc = uc + off_c(k);
    let d1 = set_at(d0, nr, nc, (d0[ur][uc] + 1) as i32);
    lemma_set_at(d0, nr, nc, (d0[ur][uc] + 1) as i32);
    assert forall|r: int, c: int| in_bounds(g, r, c) && d1[r][c] > 0 implies #[trigger] has_pred(
        g,
        d1,
        r,
        c,
    ) by {
        if r == nr && c == nc {
            assert(edge(g, r - off_r(k), c - off_c(k), k));
        } else {
            assert(in_bounds(g, r, c) && d0[r][c] > 0);
            assert(has_pred(g, d0, r, c));
            let j = choose|j: int|
                #[trigger] edge(g, r - off_r(j), c - off_c(j), j) && d0[r - off_r(j)][c - off_c(
                    j,
                )] + 1 == d0[r][c];
            assert(edge(g, r - off_r(j), c - off_c(j), j));
            assert(in_bounds(g, r - off_r(j), c - off_c(j)));
        }
    }
}

proof fn lemma_step_expanded(
    g: Seq<Seq<char>>,
    d0: Seq<Seq<i32>>,
    q0: Seq<(usize, usize)>,
    ur: int,
    uc: int,
    k: int,
)
    requires
        fits_grid(g),
        same_shape(g, d0),
        expanded_except(g, d0, q0, ur, uc),
        in_bounds(g, ur + off_r(k), uc + off_c(k)),
        d0[ur + off_r(k)][uc + off_c(k)] == -1,
        d0[ur][uc] >= 0,
    ensures
        ({
            let nr = ur + off_r(k);
            let nc = uc + off_c(k);
            expanded_except(
                g,
                set_at(d0, nr, nc, (d0[ur][uc] + 1) as i32),
                q0.push((nr as usize, nc as usize)),
                ur,
                uc,
            )
        }),
{
    reveal(expanded_except);
    let nr = ur + off_r(k);
    let nc = uc + off_c(k);
    let d1 = set_at(d0, nr, nc, (d0[ur][uc] + 1) as i32);
    let q1 = q0.push((nr as usize, nc as usize));
    lemma_coords_fit(g, nr, nc);
    lemma_set_at(d0, nr, nc, (d0[ur][uc] + 1) as i32);
    assert forall|r: int, c: int, j: int|
        #[trigger] edge(g, r, c, j) && d1[r][c] >= 0 && !queued(q1, r, c) && !(r == ur && c == uc)
            implies handled(g, d1, r, c, j) by {
        lemma_queued_push(q0, (nr as usize, nc as usize), r, c);
        assert(in_bounds(g, r, c));
        assert(handled(g, d0, r, c, j));
        if edge(g, r, c, j) {
            assert(in_bounds(g, r + off_r(j), c + off_c(j)));
        }
    }
    assert forall|r: int, c: int|
        #[trigger] in_bounds(g, r, c) && d1[r][c] >= 0 && !queued(q1, r, c) && !(r == ur && c == uc)
            implies is_symbol(g[r][c]) by {
        lemma_queued_push(q0, (nr as usize, nc as usize), r, c);
    }
}

proof fn lemma_step_queue(
    g: Seq<Seq<char>>,
    d0: Seq<Seq<i32>>,
    q0: Seq<(usize, usize)>,
    ur: int,
    uc: int,
    du: int,
    k: int,
)
    requires
        fits_grid(g),
        same_shape(g, d0),
        queue_ordered(g, d0, q0, du),
        bounded(g, d0, du),
        in_bounds(g, ur + off_r(k), uc + off_c(k)),
        d0[ur + off_r(k)][uc + off_c(k)] == -1,
        0 <= du < MAX_TILES,
    ensures
        ({
            let nr = ur + off_r(k);
            let nc = uc + off_c(k);
            queue_ordered(
                g,
                set_at(d0, nr, nc, (du + 1) as i32),
                q0.push((nr as usize, nc as usize)),
                du,
            )
        }),
{
    reveal(queue_ordered);
    reveal(bounded);
    let nr = ur + off_r(k);
    let nc = uc + off_c(k);
    let d1 = set_at(d0, nr, nc, (du + 1) as i32);
    let q1 = q0.push((nr as usize, nc as usize));
    lemma_coords_fit(g, nr, nc);
    lemma_set_at(d0, nr, nc, (du + 1) as i32);
    assert forall|i: int|
        0 <= i < q1.len() implies in_bounds(g, #[trigger] q1[i].0 as int, q1[i].1 as int) && du
            <= d1[q1[i].0 as int][q1[i].1 as int] by {
        if i < q0.len() {
            assert(q1[i] == q0[i]);
            assert(in_bounds(g, q0[i].0 as int, q0[i].1 as int));
        } else {
            assert(q1[i] == (nr as usize, nc as usize));
            assert((nr as usize) as int == nr && (nc as usize) as int == nc);
        }
    }
    assert forall|i: int, j: int|
        0 <= i <= j < q1.len() implies d1[#[trigger] q1[i].0 as int][q1[i].1 as int]
            <= d1[#[trigger] q1[j].0 as int][q1[j].1 as int] by {
        if j < q0.len() {
            assert(q1[i] == q0[i] && q1[j] == q0[j]);
            assert(d0[q0[i].0 as int][q0[i].1 as int] <= d0[q0[j].0 as int][q0[j].1 as int]);
            assert(in_bounds(g, q0[i].0 as int, q0[i].1 as int));
            assert(in_bounds(g, q0[j].0 as int, q0[j].1 as int));
        } else if i < q0.len() {
            assert(q1[i] == q0[i]);
            assert(in_bounds(g, q0[i].0 as int, q0[i].1 as int));
        }
    }
}

proof fn lemma_step_bounds(g: Seq<Seq<char>>, d0: Seq<Seq<i32>>, sr: int, sc: int, ur: int, uc: int, du: int, k: int)
    requires
        fits_grid(g),
        same_shape(g, d0),
        bounded(g, d0, du),
        zero_only_at(g, d0, sr, sc),
        in_bounds(g, ur, uc),
        d0[ur][uc] == du,
        du >= 0,
        in_bounds(g, ur + off_r(k), uc + off_c(k)),
        d0[ur + off_r(k)][uc + off_c(k)] == -1,
    ensures
        ({
            let d1 = set_at(d0, ur + off_r(k), uc + off_c(k), (du + 1) as i32);
            &&& bounded(g, d1, du)
            &&& zero_only_at(g, d1, sr, sc)
            &&& count_of(d1, -1i32) + 1 == count_of(d0, -1i32)
        }),
        du < MAX_TILES,
{
    reveal(bounded);
    reveal(zero_only_at);
    let nr = ur + off_r(k);
    let nc = uc + off_c(k);
    lemma_count_update(d0, nr, nc, (du + 1) as i32, -1i32);
    lemma_set_at(d0, nr, nc, (du + 1) as i32);
    assert(in_bounds(g, ur, uc));
    assert(d0[ur][uc] < g.len() * g[0].len() - count_of(d0, -1i32));
    assert(g.len() * g[0].len() <= MAX_TILES);
}

/// One attempted step out of the tile being expanded keeps the search invariant,
/// settles its direction and keeps the directions already settled.
proof fn lemma_step_keeps(
    g: Seq<Seq<char>>,
    sr: int,
    sc: int,
    d0: Seq<Seq<i32>>,
    q0: Seq<(usize, usize)>,
    d1: Seq<Seq<i32>>,
    q1: Seq<(usize, usize)>,
    ur: int,
    uc: int,
    du: int,
    k: int,
)
    requires
        search_inv(g, sr, sc, d0, q0, ur, uc, du),
        step_taken(g, d0, q0, d1, q1, ur, uc, k),
        0 <= k < 4,
        exits(g[ur][uc], k),
    ensures
        search_inv(g, sr, sc, d1, q1, ur, uc, du),
        handled(g, d1, ur, uc, k),
        forall|j: int| handled(g, d0, ur, uc, j) ==> #[trigger] handled(g, d1, ur, uc, j),
        2 * count_of(d1, -1i32) + q1.len() <= 2 * count_of(d0, -1i32) + q0.len(),
{
    let nr = ur + off_r(k);
    let nc = uc + off_c(k);
    if can_enter(g, ur, uc, k) && d0[nr][nc] == -1 {
        lemma_step_bounds(g, d0, sr, sc, ur, uc, du, k);
        lemma_step_support(g, d0, ur, uc, k);
        lemma_step_expanded(g, d0, q0, ur, uc, k);
        lemma_step_queue(g, d0, q0, ur, uc, du, k);
        lemma_set_at(d0, nr, nc, (du + 1) as i32);
        assert(in_bounds(g, sr, sc));
    } else if can_enter(g, ur, uc, k) {
        reveal(bounded);
        assert(in_bounds(g, nr, nc));
    }
}

/// Every distance on the map lies in `-1 .. MAX_TILES`.
pub open spec fn in_range(g: Seq<Seq<char>>, d: Seq<Seq<i32>>) -> bool {
    forall|r: int, c: int| #[trigger] in_bounds(g, r, c) ==> -1 <= d[r][c] < MAX_TILES
}

proof fn lemma_bounded_in_range(g: Seq<Seq<char>>, d: Seq<Seq<i32>>, du: int)
    requires
        fits_grid(g),
        bounded(g, d, du),
    ensures
        in_range(g, d),
{
    reveal(bounded);
}

/// Taking the head off the frontier starts its expansion.
proof fn lemma_after_pop(g: Seq<Seq<char>>, sr: int, sc: int, d: Seq<Seq<i32>>, q: Seq<(usize, usize)>)
    requires
        q.len() > 0,
        search_inv(g, sr, sc, d, q, q[0].0 as int, q[0].1 as int, d[q[0].0 as int][q[0].1 as int] as int),
    ensures
        search_inv(g, sr, sc, d, q.drop_first(), q[0].0 as int, q[0].1 as int, d[q[0].0 as int][q[0].1 as int] as int),
{
    let du = d[q[0].0 as int][q[0].1 as int] as int;
    let ur = q[0].0 as int;
    let uc = q[0].1 as int;
    let q1 = q.drop_first();
    reveal(queue_ordered);
    reveal(expanded_except);
    assert forall|r: int, c: int, k: int|
        #[trigger] edge(g, r, c, k) && d[r][c] >= 0 && !queued(q1, r, c) && !(r == ur && c == uc)
            implies handled(g, d, r, c, k) by {
        lemma_queued_drop(q, r, c);
    }
    assert forall|r: int, c: int|
        #[trigger] in_bounds(g, r, c) && d[r][c] >= 0 && !queued(q1, r, c) && !(r == ur && c == uc)
            implies is_symbol(g[r][c]) by {
        lemma_queued_drop(q, r, c);
    }
    assert forall|i: int|
        0 <= i < q1.len() implies in_bounds(g, #[trigger] q1[i].0 as int, q1[i].1 as int) && du
            <= d[q1[i].0 as int][q1[i].1 as int] by {
        assert(q1[i] == q[i + 1]);
    }
    assert forall|i: int, j: int|
        0 <= i <= j < q1.len() implies d[#[trigger] q1[i].0 as int][q1[i].1 as int]
            <= d[#[trigger] q1[j].0 as int][q1[j].1 as int] by {
        assert(q1[i] == q[i + 1] && q1[j] == q[j + 1]);
        assert(d[q[i + 1].0 as int][q[i + 1].1 as int] <= d[q[j + 1].0 as int][q[j + 1].1 as int]);
    }
}

/// Once every step out of `(ur, uc)` is handled, the search moves on to the next
/// tile of the frontier, or, with the frontier empty, has a breadth-first map.
proof fn lemma_after_expand(
    g: Seq<Seq<char>>,
    sr: int,
    sc: int,
    d: Seq<Seq<i32>>,
    q: Seq<(usize, usize)>,
    ur: int,
    uc: int,
    du: int,
)
    requires
        search_inv(g, sr, sc, d, q, ur, uc, du),
        is_symbol(g[ur][uc]),
        forall|k: int| 0 <= k < 4 ==> #[trigger] handled(g, d, ur, uc, k),
    ensures
        in_range(g, d),
        q.len() > 0 ==> search_inv(g, sr, sc, d, q, q[0].0 as int, q[0].1 as int, d[q[0].0 as int][q[0].1 as int] as int),
        q.len() == 0 ==> is_bfs_map(g, sr, sc, d),
{
    lemma_bounded_in_range(g, d, du);
    reveal(expanded_except);
    reveal(bounded);
    reveal(zero_only_at);
    if q.len() > 0 {
        reveal(queue_ordered);
        let vr = q[0].0 as int;
        let vc = q[0].1 as int;
        let dv = d[vr][vc] as int;
        assert(in_bounds(g, vr, vc) && du <= dv);
        assert(dv < MAX_TILES);
        assert forall|r: int, c: int, k: int|
            #[trigger] edge(g, r, c, k) && d[r][c] >= 0 && !queued(q, r, c) && !(r == vr && c == vc)
                implies handled(g, d, r, c, k) by {
            if r == ur && c == uc {
                assert(handled(g, d, ur, uc, k));
            }
        }
        assert forall|i: int|
            0 <= i < q.len() implies in_bounds(g, #[trigger] q[i].0 as int, q[i].1 as int) && dv
                <= d[q[i].0 as int][q[i].1 as int] by {
            assert(d[q[0].0 as int][q[0].1 as int] <= d[q[i].0 as int][q[i].1 as int]);
        }
    } else {
        assert forall|r: int, c: int, k: int| #[trigger] edge(g, r, c, k) && d[r][c] >= 0 implies {
            &&& d[r + off_r(k)][c + off_c(k)] >= 0
            &&& d[r + off_r(k)][c + off_c(k)] <= d[r][c] + 1
        } by {
            assert(!queued(q, r, c));
            if r == ur && c == uc {
                assert(handled(g, d, ur, uc, k));
            } else {
                assert(handled(g, d, r, c, k));
            }
        }
        assert forall|r: int, c: int| #[trigger] in_bounds(g, r, c) && d[r][c] >= 0 implies is_symbol(g[r][c]) by {
            assert(!queued(q, r, c));
        }
        assert(in_bounds(g, sr, sc));
    }
}

/// A search that reaches a tile without a pipe symbol shows that no breadth-first
/// map from the first start exists.
proof fn lemma_no_bfs_map(
    g: Seq<Seq<char>>,
    sr: int,
    sc: int,
    d: Seq<Seq<i32>>,
    q: Seq<(usize, usize)>,
    ur: int,
    uc: int,
    du: int,
)
    requires
        search_inv(g, sr, sc, d, q, ur, uc, du),
        !is_symbol(g[ur][uc]),
    ensures
        forall|r2: int, c2: int, d2: Seq<Seq<i32>>|
            is_first_start(g, r2, c2) ==> !#[trigger] is_bfs_map(g, r2, c2, d2),
{
    reveal(zero_only_at);
    assert forall|r2: int, c2: int, d2: Seq<Seq<i32>>|
        is_first_start(g, r2, c2) implies !#[trigger] is_bfs_map(g, r2, c2, d2) by {
        if is_bfs_map(g, r2, c2, d2) {
            lemma_first_start_unique(g, sr, sc, r2, c2);
            lemma_reached_within(g, sr, sc, d, d2, du as nat);
            assert(in_bounds(g, ur, uc));
        }
    }
}

// ---------------------------------------------------------------------------
// The area walk
// ---------------------------------------------------------------------------

/// The offsets the area walk tries `j`-th from each tile: south, north, east, west.
pub open spec fn walk_off(j: int) -> (int, int) {
    if j == 0 {
        (1, 0)
    } else if j == 1 {
        (-1, 0)
    } else if j == 2 {
        (0, 1)
    } else {
        (0, -1)
    }
}

/// Unreached tiles in row `r` left of column `c`.
pub open spec fn open_left_of(d: Seq<Seq<i32>>, r: int, c: int) -> int {
    count_row(d[r].take(c), -1i32) as int
}

/// What a move of the walk from `(fr, fc)` to `(tr, tc)` adds to the area: a move
/// south takes the unreached tiles left of where it leaves, a move north adds
/// those left of where it arrives, a move east or west adds nothing.
pub open spec fn walk_delta(d: Seq<Seq<i32>>, fr: int, fc: int, tr: int, tc: int) -> int {
    if tr == fr + 1 {
        -open_left_of(d, fr, fc)
    } else if tr == fr - 1 {
        open_left_of(d, tr, tc)
    } else {
        0
    }
}

/// The tile the walk moves to from `(r, c)` by its `j`-th offset, if that tile can
/// be entered and is at distance `want_a` or `want_b`.
pub open spec fn try_move(
    g: Seq<Seq<char>>,
    d: Seq<Seq<i32>>,
    r: int,
    c: int,
    j: int,
    want_a: i32,
    want_b: i32,
) -> Option<(int, int)> {
    let nr = r + walk_off(j).0;
    let nc = c + walk_off(j).1;
    if can_enter(g, r, c, dir_of(walk_off(j).0, walk_off(j).1)) && (d[nr][nc] == want_a
        || d[nr][nc] == want_b) {
        Some((nr, nc))
    } else {
        None
    }
}

/// One round of the walk: the offsets from the `j`-th on are tried in turn, each
/// from wherever the walk then stands; a move marks the tile left as passed and
/// adds its share to the area. Gives the map, place, area and whether it moved.
pub open spec fn sweep(
    g: Seq<Seq<char>>,
    d: Seq<Seq<i32>>,
    r: int,
    c: int,
    area: int,
    want_a: i32,
    want_b: i32,
    j: int,
    moved: bool,
) -> (Seq<Seq<i32>>, int, int, int, bool)
    decreases 4 - j,
{
    if j >= 4 {
        (d, r, c, area, moved)
    } else {
        match try_move(g, d, r, c, j, want_a, want_b) {
            Some(n) => {
                let d1 = set_at(d, r, c, -2i32);
                sweep(g, d1, n.0, n.1, area + walk_delta(d1, r, c, n.0, n.1), want_a, want_b, j + 1, true)
            },
            None => sweep(g, d, r, c, area, want_a, want_b, j + 1, moved),
        }
    }
}

/// The outward walk: rounds toward distance one more than where each round
/// starts, until it stands on distance `far`; none if a round cannot move or
/// `fuel` rounds do not suffice.
pub open spec fn walk_out(
    g: Seq<Seq<char>>,
    d: Seq<Seq<i32>>,
    r: int,
    c: int,
    area: int,
    far: int,
    fuel: nat,
) -> Option<(Seq<Seq<i32>>, int, int, int)>
    decreases fuel,
{
    if fuel == 0 {
        None
    } else if d[r][c] == far {
        Some((d, r, c, area))
    } else {
        let s = sweep(g, d, r, c, area, (d[r][c] + 1) as i32, (d[r][c] + 1) as i32, 0, false);
        if !s.4 {
            None
        } else {
            walk_out(g, s.0, s.1, s.2, s.3, far, (fuel - 1) as nat)
        }
    }
}

/// The walk back: rounds toward distance one less than where each round starts,
/// or toward distance `far`, until it stands on distance zero.
pub open spec fn walk_back(
    g: Seq<Seq<char>>,
    d: Seq<Seq<i32>>,
    r: int,
    c: int,
    area: int,
    far: int,
    fuel: nat,
) -> Option<(Seq<Seq<i32>>, int, int, int)>
    decreases fuel,
{
    if fuel == 0 {
        None
    } else if d[r][c] == 0 {
        Some((d, r, c, area))
    } else {
        let s = sweep(g, d, r, c, area, (d[r][c] - 1) as i32, far as i32, 0, false);
        if !s.4 {
            None
        } else {
            walk_back(g, s.0, s.1, s.2, s.3, far, (fuel - 1) as nat)
        }
    }
}

/// The first start of `g`.
pub open spec fn start_of(g: Seq<Seq<char>>) -> (int, int) {
    choose|p: (int, int)| is_first_start(g, p.0, p.1)
}

/// What the two walks around the loop of `g` leave, from distance map `d` and
/// farthest distance `far`: the map, with the start reset to zero between them,
/// and the signed area; none if either walk gets stuck.
pub open spec fn loop_walk(g: Seq<Seq<char>>, d: Seq<Seq<i32>>, far: int) -> Option<(Seq<Seq<i32>>, int)> {
    let (sr, sc) = start_of(g);
    let fuel = (g.len() * g[0].len() + 2) as nat;
    match walk_out(g, d, sr, sc, 0, far, fuel) {
        Some(w) => match walk_back(g, set_at(w.0, sr, sc, 0i32), w.1, w.2, w.3, far, fuel) {
            Some(b) => Some((b.0, b.3)),
            None => None,
        },
        None => None,
    }
}

/// Tiles not yet passed by the walk, and one more while the walk stands on a
/// passed tile.
pub open spec fn walk_measure(g: Seq<Seq<char>>, d: Seq<Seq<i32>>, r: int, c: int) -> int {
    g.len() * g[0].len() - count_of(d, -2i32) + if d[r][c] == -2 {
        1int
    } else {
        0int
    }
}

proof fn lemma_measure_nonneg(g: Seq<Seq<char>>, d: Seq<Seq<i32>>, r: int, c: int)
    requires
        is_rectangular(g),
        same_shape(g, d),
    ensures
        walk_measure(g, d, r, c) >= 0,
{
    assert forall|i: int| 0 <= i < d.len() implies #[trigger] d[i].len() == g[0].len() by {
        assert(g[i].len() == g[0].len());
    }
    lemma_count_bound(d, g[0].len() as int, -2i32);
}

proof fn lemma_take_count(row: Seq<i32>, j: int)
    requires
        0 <= j < row.len(),
    ensures
        count_row(row.take(j + 1), -1i32) == count_row(row.take(j), -1i32) + if row[j] == -1 {
            1nat
        } else {
            0nat
        },
        count_row(row.take(j), -1i32) <= j,
{
    assert(row.take(j + 1).drop_last() =~= row.take(j));
    lemma_count_row_bound(row.take(j), -1i32);
}

// ---------------------------------------------------------------------------
// The map
// ---------------------------------------------------------------------------

/// A pipe map, the distance of each tile from the start (`-1` unreached, `-2`
/// passed by the area walk), the search frontier and the farthest distance found.
#[derive(Debug)]
pub struct PipeMap {
    tiles: Vec<Vec<char>>,
    memo: Vec<Vec<i32>>,
    q: VecDeque<(usize, usize)>,
    farthest: u64,
}

impl PipeMap {
    /// The tiles, row by row.
    pub closed spec fn grid(&self) -> Seq<Seq<char>> {
        rows_of(self.tiles@)
    }

    /// The distance map, row by row.
    pub closed spec fn dist(&self) -> Seq<Seq<i32>> {
        rows_of(self.memo@)
    }

    /// The search frontier.
    pub closed spec fn queue(&self) -> Seq<(usize, usize)> {
        self.q@
    }

    /// The farthest distance recorded by the last search.
    pub closed spec fn farthest_seen(&self) -> int {
        self.farthest as int
    }

    /// The grid is rectangular and small enough, and the distance map has its shape.
    pub open spec fn shaped(&self) -> bool {
        &&& fits_grid(self.grid())
        &&& same_shape(self.grid(), self.dist())
    }

    /// `shaped`, with every distance in `-2 .. MAX_TILES` and the farthest distance
    /// below `MAX_TILES`.
    pub open spec fn wf(&self) -> bool {
        &&& self.shaped()
        &&& forall|r: int, c: int|
            #[trigger] in_bounds(self.grid(), r, c) ==> -2 <= self.dist()[r][c] < MAX_TILES
        &&& 0 <= self.farthest_seen() < MAX_TILES
    }

    /// Reads a map from text, one row per line, with every distance unreached.
    pub fn new(s: &str) -> (r: Result<PipeMap, PipeError>)
        ensures
            r is Ok <==> fits_grid(lines_of(s@)),
            r is Err ==> r == Err::<PipeMap, PipeError>(PipeError::Malformed),
            r matches Ok(pm) ==> {
                &&& pm.wf()
                &&& pm.grid() == lines_of(s@)
                &&& is_clean(pm.grid(), pm.dist())
                &&& pm.queue().len() == 0
                &&& pm.farthest_seen() == 0
            },
    {
        let tiles = split_rows(s);
        proof {
            lemma_rows_of(tiles@);
        }
        if tiles.len() == 0 {
            return Err(PipeError::Malformed);
        }
        let r_len = tiles.len();
        let c_len = tiles[0].len();
        let mut i: usize = 0;
        while i < r_len
            invariant
                rows_of(tiles@) == lines_of(s@),
                rows_of(tiles@).len() == tiles@.len(),
                forall|i: int| 0 <= i < tiles@.len() ==> #[trigger] tiles@[i]@ == rows_of(tiles@)[i],
                r_len == tiles.len(),
                c_len == tiles@[0]@.len(),
                0 <= i <= r_len,
                forall|r: int| 0 <= r < i ==> #[trigger] rows_of(tiles@)[r].len() == c_len,
            decreases r_len - i,
        {
            if tiles[i].len() != c_len {
                let ghost g = lines_of(s@);
                assert(g[i as int].len() != g[0].len() && 0 <= i < g.len());
                return Err(PipeError::Malformed);
            }
            i = i + 1;
        }
        if c_len != 0 && r_len > MAX_TILES / c_len {
            assert(r_len * c_len > MAX_TILES) by (nonlinear_arith)
                requires
                    c_len > 0,
                    r_len > MAX_TILES / c_len,
            ;
            return Err(PipeError::Malformed);
        }
        assert(r_len * c_len <= MAX_TILES) by (nonlinear_arith)
            requires
                c_len == 0 || r_len <= MAX_TILES / c_len,
        ;
        let pm = PipeMap {
            tiles,
            memo: Self::create_clean_memo(r_len, c_len),
            q: VecDeque::new(),
            farthest: 0,
        };
        Ok(pm)
    }

    /// A distance map of `r_len` rows of `c_len` entries, all `-1`.
    pub fn create_clean_memo(r_len: usize, c_len: usize) -> (v: Vec<Vec<i32>>)
        ensures
            v@.len() == r_len,
            forall|r: int| 0 <= r < r_len ==> #[trigger] v@[r]@.len() == c_len,
            forall|r: int, c: int| 0 <= r < r_len && 0 <= c < c_len ==> #[trigger] v@[r]@[c] == -1,
    {
        let mut v_mat: Vec<Vec<i32>> = Vec::new();
        let mut i: usize = 0;
        while i < r_len
            invariant
                v_mat@.len() == i,
                i <= r_len,
                forall|r: int| 0 <= r < i ==> #[trigger] v_mat@[r]@.len() == c_len,
                forall|r: int, c: int|
                    0 <= r < i && 0 <= c < c_len ==> #[trigger] v_mat@[r]@[c] == -1,
            decreases r_len - i,
        {
            let mut v: Vec<i32> = Vec::new();
            let mut j: usize = 0;
            while j < c_len
                invariant
                    v@.len() == j,
                    j <= c_len,
                    forall|c: int| 0 <= c < j ==> #[trigger] v@[c] == -1,
                decreases c_len - j,
            {
                v.push(-1);
                j = j + 1;
            }
            v_mat.push(v);
            i = i + 1;
        }
        v_mat
    }

    /// The first `S` in row-major order, if there is one.
    fn locate_start(&self) -> (r: Option<(usize, usize)>)
        requires
            self.shaped(),
        ensures
            r is None <==> !has_start(self.grid()),
            r matches Some(p) ==> is_first_start(self.grid(), p.0 as int, p.1 as int),
    {
        let ghost g = self.grid();
        proof {
            lemma_rows_of(self.tiles@);
        }
        let mut row_idx: usize = 0;
        while row_idx < self.tiles.len()
            invariant
                g == self.grid(),
                self.shaped(),
                row_idx <= g.len(),
                forall|r: int, c: int| #[trigger] in_bounds(g, r, c) && r < row_idx ==> g[r][c] != 'S',
            decreases g.len() - row_idx,
        {
            let mut col_idx: usize = 0;
            while col_idx < self.tiles[row_idx].len()
                invariant
                    g == self.grid(),
                    self.shaped(),
                    row_idx < g.len(),
                    col_idx <= g[row_idx as int].len(),
                    forall|r: int, c: int|
                        #[trigger] in_bounds(g, r, c) && (r < row_idx || (r == row_idx && c
                            < col_idx)) ==> g[r][c] != 'S',
                decreases g[row_idx as int].len() - col_idx,
            {
                if self.tiles[row_idx][col_idx] == 'S' {
                    assert(in_bounds(g, row_idx as int, col_idx as int));
                    return Some((row_idx, col_idx));
                }
                col_idx = col_idx + 1;
            }
            row_idx = row_idx + 1;
        }
        None
    }

    /// Where the start tile is: the first `S` in row-major order.
    pub fn find_s(&self) -> (p: (usize, usize))
        requires
            self.shaped(),
            has_start(self.grid()),
        ensures
            is_first_start(self.grid(), p.0 as int, p.1 as int),
    {
        match self.locate_start() {
            Some(p) => p,
            None => {
                proof {
                    assert(false);
                }
                (0, 0)
            },
        }
    }

    fn is_pipe(c: char) -> (r: bool)
        ensures
            r == (c != '.'),
    {
        c != '.'
    }

    /// `(row, col)` lies on the map and holds a pipe.
    fn tile_within_map(&self, row: i32, col: i32) -> (r: bool)
        requires
            self.shaped(),
        ensures
            r == is_pipe_at(self.grid(), row as int, col as int),
    {
        proof {
            lemma_rows_of(self.tiles@);
        }
        row >= 0 && col >= 0 && (row as usize) < self.tiles.len() && (col as usize)
            < self.tiles[0].len() && Self::is_pipe(self.tiles[row as usize][col as usize])
    }

    fn has_visited(&self, new_row: usize, new_col: usize) -> (r: bool)
        requires
            self.shaped(),
            in_bounds(self.grid(), new_row as int, new_col as int),
        ensures
            r == (self.dist()[new_row as int][new_col as int] != -1),
    {
        proof {
            lemma_rows_of(self.tiles@);
            lemma_rows_of(self.memo@);
        }
        self.memo[new_row][new_col] != -1
    }

    fn set_dist(&mut self, row: usize, col: usize, v: i32)
        requires
            old(self).shaped(),
            in_bounds(old(self).grid(), row as int, col as int),
        ensures
            final(self).grid() == old(self).grid(),
            final(self).dist() == set_at(old(self).dist(), row as int, col as int, v),
            final(self).queue() == old(self).queue(),
            final(self).farthest_seen() == old(self).farthest_seen(),
            final(self).shaped(),
    {
        let ghost d0 = self.dist();
        proof {
            lemma_rows_of(self.tiles@);
            lemma_rows_of(self.memo@);
        }
        self.memo[row][col] = v;
        assert(self.dist() =~= set_at(d0, row as int, col as int, v));
    }

    /// Moves from `origin` by the offsets onto an unreached pipe tile, records its
    /// distance one beyond `origin`'s and queues it.
    fn go_to_next(&mut self, row_offset: i32, col_offset: i32, origin: (usize, usize)) -> (r: Option<
        (usize, usize),
    >)
        requires
            old(self).shaped(),
            in_bounds(old(self).grid(), origin.0 as int, origin.1 as int),
            is_unit(row_offset as int, col_offset as int),
            old(self).dist()[origin.0 as int][origin.1 as int] < MAX_TILES,
        ensures
            ({
                let nr = origin.0 + row_offset;
                let nc = origin.1 + col_offset;
                let d = old(self).dist();
                if is_pipe_at(old(self).grid(), nr, nc) && d[nr][nc] == -1 {
                    &&& final(self).dist() == set_at(d, nr, nc, (d[origin.0 as int][origin.1 as int] + 1) as i32)
                    &&& final(self).queue() == old(self).queue().push((nr as usize, nc as usize))
                    &&& r == Some((nr as usize, nc as usize))
                } else {
                    &&& final(self).dist() == d
                    &&& final(self).queue() == old(self).queue()
                    &&& r is None
                }
            }),
            final(self).grid() == old(self).grid(),
            final(self).farthest_seen() == old(self).farthest_seen(),
            final(self).shaped(),
    {
        proof {
            lemma_rows_of(self.tiles@);
            lemma_rows_of(self.memo@);
            lemma_coords_fit(self.grid(), origin.0 as int, origin.1 as int);
        }
        let (new_row, new_col) = (origin.0 as i32 + row_offset, origin.1 as i32 + col_offset);
        if !self.tile_within_map(new_row, new_col) {
            return None;
        }
        let (new_row, new_col) = (new_row as usize, new_col as usize);
        if self.has_visited(new_row, new_col) {
            return None;
        }
        let v = self.memo[origin.0][origin.1] + 1;
        self.set_dist(new_row, new_col, v);
        self.q.push_back((new_row, new_col));
        Some((new_row, new_col))
    }

    /// A step from `origin` by the offsets cannot be taken: it leaves the map,
    /// lands on ground, or lands on a tile with no opening facing back.
    pub fn tile_unreachable(&self, origin: (usize, usize), row_offset: i32, col_offset: i32) -> (r:
        bool)
        requires
            self.shaped(),
            origin.0 < MAX_TILES,
            origin.1 < MAX_TILES,
            is_unit(row_offset as int, col_offset as int),
        ensures
            r == !can_enter(
                self.grid(),
                origin.0 as int,
                origin.1 as int,
                dir_of(row_offset as int, col_offset as int),
            ),
    {
        proof {
            lemma_rows_of(self.tiles@);
        }
        let (new_row, new_col) = (origin.0 as i32 + row_offset, origin.1 as i32 + col_offset);
        if !self.tile_within_map(new_row, new_col) {
            return true;
        }
        let t = self.tiles[new_row as usize][new_col as usize];
        if col_offset == 1 {
            t == '|' || t == 'F' || t == 'L'
        } else if col_offset == -1 {
            t == '|' || t == 'J' || t == '7'
        } else if row_offset == -1 {
            t == '-' || t == 'L' || t == 'J'
        } else {
            t == '-' || t == '7' || t == 'F'
        }
    }

    /// Attempts a step from `origin` by the offsets: taken onto an enterable,
    /// unreached tile, left alone otherwise.
    fn go_somewhere(&mut self, origin: (usize, usize), row_offset: i32, col_offset: i32) -> (r:
        Option<(usize, usize)>)
        requires
            old(self).shaped(),
            in_bounds(old(self).grid(), origin.0 as int, origin.1 as int),
            is_unit(row_offset as int, col_offset as int),
            old(self).dist()[origin.0 as int][origin.1 as int] < MAX_TILES,
        ensures
            step_taken(
                old(self).grid(),
                old(self).dist(),
                old(self).queue(),
                final(self).dist(),
                final(self).queue(),
                origin.0 as int,
                origin.1 as int,
                dir_of(row_offset as int, col_offset as int),
            ),
            r is Some <==> final(self).queue().len() == old(self).queue().len() + 1,
            final(self).grid() == old(self).grid(),
            final(self).farthest_seen() == old(self).farthest_seen(),
            final(self).shaped(),
    {
        proof {
            lemma_coords_fit(self.grid(), origin.0 as int, origin.1 as int);
        }
        if !self.tile_unreachable(origin, row_offset, col_offset) {
            self.go_to_next(row_offset, col_offset, origin)
        } else {
            None
        }
    }

    fn go_east(&mut self, origin: (usize, usize)) -> (r: Option<(usize, usize)>)
        requires
            old(self).shaped(),
            in_bounds(old(self).grid(), origin.0 as int, origin.1 as int),
            old(self).dist()[origin.0 as int][origin.1 as int] < MAX_TILES,
        ensures
            step_taken(old(self).grid(), old(self).dist(), old(self).queue(), final(self).dist(), final(self).queue(), origin.0 as int, origin.1 as int, 0),
            r is Some <==> final(self).queue().len() == old(self).queue().len() + 1,
            final(self).grid() == old(self).grid(),
            final(self).farthest_seen() == old(self).farthest_seen(),
            final(self).shaped(),
    {
        self.go_somewhere(origin, 0, 1)
    }

    fn go_west(&mut self, origin: (usize, usize)) -> (r: Option<(usize, usize)>)
        requires
            old(self).shaped(),
            in_bounds(old(self).grid(), origin.0 as int, origin.1 as int),
            old(self).dist()[origin.0 as int][origin.1 as int] < MAX_TILES,
        ensures
            step_taken(old(self).grid(), old(self).dist(), old(self).queue(), final(self).dist(), final(self).queue(), origin.0 as int, origin.1 as int, 3),
            r is Some <==> final(self).queue().len() == old(self).queue().len() + 1,
            final(self).grid() == old(self).grid(),
            final(self).farthest_seen() == old(self).farthest_seen(),
            final(self).shaped(),
    {
        self.go_somewhere(origin, 0, -1)
    }

    fn go_north(&mut self, origin: (usize, usize)) -> (r: Option<(usize, usize)>)
        requires
            old(self).shaped(),
            in_bounds(old(self).grid(), origin.0 as int, origin.1 as int),
            old(self).dist()[origin.0 as int][origin.1 as int] < MAX_TILES,
        ensures
            step_taken(old(self).grid(), old(self).dist(), old(self).queue(), final(self).dist(), final(self).queue(), origin.0 as int, origin.1 as int, 1),
            r is Some <==> final(self).queue().len() == old(self).queue().len() + 1,
            final(self).grid() == old(self).grid(),
            final(self).farthest_seen() == old(self).farthest_seen(),
            final(self).shaped(),
    {
        self.go_somewhere(origin, -1, 0)
    }

    fn go_south(&mut self, origin: (usize, usize)) -> (r: Option<(usize, usize)>)
        requires
            old(self).shaped(),
            in_bounds(old(self).grid(), origin.0 as int, origin.1 as int),
            old(self).dist()[origin.0 as int][origin.1 as int] < MAX_TILES,
        ensures
            step_taken(old(self).grid(), old(self).dist(), old(self).queue(), final(self).dist(), final(self).queue(), origin.0 as int, origin.1 as int, 2),
            r is Some <==> final(self).queue().len() == old(self).queue().len() + 1,
            final(self).grid() == old(self).grid(),
            final(self).farthest_seen() == old(self).farthest_seen(),
            final(self).shaped(),
    {
        self.go_somewhere(origin, 1, 0)
    }

    /// Expands `origin` in direction `k` (0 east, 1 north, 2 south, 3 west).
    fn expand_toward(
        &mut self,
        origin: (usize, usize),
        k: usize,
        Ghost(sr): Ghost<int>,
        Ghost(sc): Ghost<int>,
        Ghost(du): Ghost<int>,
    )
        requires
            search_inv(old(self).grid(), sr, sc, old(self).dist(), old(self).queue(), origin.0 as int, origin.1 as int, du),
            k < 4,
            exits(old(self).grid()[origin.0 as int][origin.1 as int], k as int),
        ensures
            search_inv(final(self).grid(), sr, sc, final(self).dist(), final(self).queue(), origin.0 as int, origin.1 as int, du),
            final(self).grid() == old(self).grid(),
            final(self).farthest_seen() == old(self).farthest_seen(),
            final(self).shaped(),
            handled(final(self).grid(), final(self).dist(), origin.0 as int, origin.1 as int, k as int),
            forall|j: int| handled(old(self).grid(), old(self).dist(), origin.0 as int, origin.1 as int, j)
                ==> #[trigger] handled(final(self).grid(), final(self).dist(), origin.0 as int, origin.1 as int, j),
            2 * count_of(final(self).dist(), -1i32) + final(self).queue().len() <= 2 * count_of(old(self).dist(), -1i32) + old(self).queue().len(),
    {
        let ghost d0 = self.dist();
        let ghost q0 = self.queue();
        if k == 0 {
            self.go_east(origin);
        } else if k == 1 {
            self.go_north(origin);
        } else if k == 2 {
            self.go_south(origin);
        } else {
            self.go_west(origin);
        }
        proof {
            lemma_step_keeps(self.grid(), sr, sc, d0, q0, self.dist(), self.queue(), origin.0 as int, origin.1 as int, du, k as int);
        }
    }

    /// Fills the distance map by a breadth-first search from the first start and
    /// returns the largest distance found.
    pub fn search_farthest(&mut self) -> (r: Result<u64, PipeError>)
        requires
            old(self).wf(),
        ensures
            final(self).wf(),
            final(self).grid() == old(self).grid(),
            (r == Err::<u64, PipeError>(PipeError::MissingStart)) <==> !has_start(old(self).grid()),
            (r == Err::<u64, PipeError>(PipeError::DegenerateStart)) <==> (has_start(old(self).grid())
                && start_degree(
                old(self).grid(),
                start_of(old(self).grid()).0,
                start_of(old(self).grid()).1,
            ) != 2),
            r is Err ==> r == Err::<u64, PipeError>(PipeError::MissingStart) || r == Err::<
                u64,
                PipeError,
            >(PipeError::DegenerateStart) || r == Err::<u64, PipeError>(PipeError::UndefinedSymbol),
            has_start(old(self).grid()) && start_degree(
                old(self).grid(),
                start_of(old(self).grid()).0,
                start_of(old(self).grid()).1,
            ) == 2 && (exists|d: Seq<Seq<i32>>|
                #[trigger] is_bfs_map(
                    old(self).grid(),
                    start_of(old(self).grid()).0,
                    start_of(old(self).grid()).1,
                    d,
                )) ==> r is Ok,
            r matches Ok(f) ==> {
                &&& final(self).queue().len() == 0
                &&& exists|sr: int, sc: int|
                    #[trigger] is_first_start(final(self).grid(), sr, sc) && is_bfs_map(
                        final(self).grid(),
                        sr,
                        sc,
                        final(self).dist(),
                    )
                &&& is_max_of(final(self).grid(), final(self).dist(), f as int)
                &&& final(self).farthest_seen() == f
            },
            r == Err::<u64, PipeError>(PipeError::UndefinedSymbol) ==> forall|
                sr: int,
                sc: int,
                d: Seq<Seq<i32>>,
            | is_first_start(old(self).grid(), sr, sc) ==> !#[trigger] is_bfs_map(
                old(self).grid(),
                sr,
                sc,
                d,
            ),
    {
        let start_point = match self.locate_start() {
            Some(p) => p,
            None => {
                return Err(PipeError::MissingStart);
            },
        };
        let ghost g = self.grid();
        let ghost sr = start_point.0 as int;
        let ghost sc = start_point.1 as int;
        let ghost f0 = self.farthest_seen();
        proof {
            lemma_rows_of(self.tiles@);
            assert(in_bounds(g, sr, sc));
            assert(has_start(g));
            let p = start_of(g);
            assert(is_first_start(g, p.0, p.1));
            lemma_first_start_unique(g, sr, sc, p.0, p.1);
        }
        if self.joined_neighbours(start_point) != 2 {
            return Err(PipeError::DegenerateStart);
        }
        proof {
            assert(g[sr].len() == g[0].len());
        }
        let r_len = self.tiles.len();
        let c_len = self.tiles[0].len();
        self.memo = Self::create_clean_memo(r_len, c_len);
        self.q = VecDeque::new();
        proof {
            lemma_rows_of(self.memo@);
            lemma_count_all(self.dist(), c_len as int, -1i32);
        }
        let ghost dc = self.dist();
        self.set_dist(start_point.0, start_point.1, 0);
        self.q.push_back(start_point);
        proof {
            let d = self.dist();
            lemma_count_update(dc, sr, sc, 0, -1i32);
            lemma_set_at(dc, sr, sc, 0);
            reveal(bounded);
            reveal(zero_only_at);
            reveal(queue_ordered);
            reveal(expanded_except);
            assert(self.queue()[0] == start_point);
            assert forall|r: int, c: int| in_bounds(g, r, c) && d[r][c] > 0 implies #[trigger] has_pred(g, d, r, c) by {
            }
            assert forall|r: int, c: int, k: int|
                #[trigger] edge(g, r, c, k) && d[r][c] >= 0 && !queued(self.queue(), r, c) && !(r == sr && c == sc)
                    implies handled(g, d, r, c, k) by {
            }
            assert forall|r: int, c: int|
                #[trigger] in_bounds(g, r, c) && d[r][c] >= 0 && !queued(self.queue(), r, c) && !(r == sr && c == sc)
                    implies is_symbol(g[r][c]) by {
            }
            assert(g.len() * g[0].len() >= 1) by (nonlinear_arith)
                requires g.len() >= 1, g[0].len() >= 1;
        }
        loop
            invariant
                self.grid() == g,
                old(self).grid() == g,
                has_start(g),
                start_of(g) == (sr, sc),
                start_degree(g, sr, sc) == 2,
                self.shaped(),
                self.farthest_seen() == f0,
                0 <= f0 < MAX_TILES,
                is_first_start(g, sr, sc),
                self.queue().len() > 0 ==> search_inv(
                    g,
                    sr,
                    sc,
                    self.dist(),
                    self.queue(),
                    self.queue()[0].0 as int,
                    self.queue()[0].1 as int,
                    self.dist()[self.queue()[0].0 as int][self.queue()[0].1 as int] as int,
                ),
                self.queue().len() == 0 ==> is_bfs_map(g, sr, sc, self.dist()) && in_range(g, self.dist()),
            ensures
                self.grid() == g,
                self.shaped(),
                self.farthest_seen() == f0,
                self.queue().len() == 0,
                is_bfs_map(g, sr, sc, self.dist()),
                in_range(g, self.dist()),
            decreases 2 * count_of(self.dist(), -1i32) + self.queue().len(),
        {
            let ghost q_before = self.queue();
            let ghost d = self.dist();
            let origin = match self.q.pop_front() {
                Some(p) => p,
                None => {
                    break;
                },
            };
            let (row, col) = origin;
            let ghost du = d[row as int][col as int] as int;
            proof {
                lemma_after_pop(g, sr, sc, d, q_before);
                assert(self.queue() == q_before.drop_first());
                lemma_rows_of(self.tiles@);
            }
            let t = self.tiles[row][col];
            if t == 'S' {
                self.expand_toward(origin, 0, Ghost(sr), Ghost(sc), Ghost(du));
                self.expand_toward(origin, 1, Ghost(sr), Ghost(sc), Ghost(du));
                self.expand_toward(origin, 2, Ghost(sr), Ghost(sc), Ghost(du));
                self.expand_toward(origin, 3, Ghost(sr), Ghost(sc), Ghost(du));
            } else if t == 'J' {
                self.expand_toward(origin, 1, Ghost(sr), Ghost(sc), Ghost(du));
                self.expand_toward(origin, 3, Ghost(sr), Ghost(sc), Ghost(du));
            } else if t == 'F' {
                self.expand_toward(origin, 0, Ghost(sr), Ghost(sc), Ghost(du));
                self.expand_toward(origin, 2, Ghost(sr), Ghost(sc), Ghost(du));
            } else if t == '|' {
                self.expand_toward(origin, 1, Ghost(sr), Ghost(sc), Ghost(du));
                self.expand_toward(origin, 2, Ghost(sr), Ghost(sc), Ghost(du));
            } else if t == '-' {
                self.expand_toward(origin, 3, Ghost(sr), Ghost(sc), Ghost(du));
                self.expand_toward(origin, 0, Ghost(sr), Ghost(sc), Ghost(du));
            } else if t == 'L' {
                self.expand_toward(origin, 1, Ghost(sr), Ghost(sc), Ghost(du));
                self.expand_toward(origin, 0, Ghost(sr), Ghost(sc), Ghost(du));
            } else if t == '7' {
                self.expand_toward(origin, 3, Ghost(sr), Ghost(sc), Ghost(du));
                self.expand_toward(origin, 2, Ghost(sr), Ghost(sc), Ghost(du));
            } else {
                proof {
                    lemma_no_bfs_map(g, sr, sc, self.dist(), self.queue(), row as int, col as int, du);
                    reveal(bounded);
                }
                return Err(PipeError::UndefinedSymbol);
            }
            proof {
                assert forall|k: int| 0 <= k < 4 implies #[trigger] handled(g, self.dist(), row as int, col as int, k) by {
                    assert(!exits(t, k) ==> !edge(g, row as int, col as int, k));
                }
                lemma_after_expand(g, sr, sc, self.dist(), self.queue(), row as int, col as int, du);
            }
        }
        let best = self.max_distance(Ghost(sr), Ghost(sc));
        self.farthest = best as u64;
        proof {
            assert(is_first_start(self.grid(), sr, sc) && is_bfs_map(self.grid(), sr, sc, self.dist()));
            assert(best as u64 as int == best as int);
        }
        Ok(self.farthest)
    }

    /// How many neighbours of `origin` join it: those a step can enter.
    fn joined_neighbours(&self, origin: (usize, usize)) -> (n: u32)
        requires
            self.shaped(),
            in_bounds(self.grid(), origin.0 as int, origin.1 as int),
        ensures
            n == start_degree(self.grid(), origin.0 as int, origin.1 as int),
    {
        proof {
            lemma_coords_fit(self.grid(), origin.0 as int, origin.1 as int);
        }
        let mut n: u32 = 0;
        if !self.tile_unreachable(origin, 0, 1) {
            n = n + 1;
        }
        if !self.tile_unreachable(origin, -1, 0) {
            n = n + 1;
        }
        if !self.tile_unreachable(origin, 1, 0) {
            n = n + 1;
        }
        if !self.tile_unreachable(origin, 0, -1) {
            n = n + 1;
        }
        n
    }

    /// The largest entry of the distance map, which holds `0` at `(sr, sc)`.
    fn max_distance(&self, Ghost(sr): Ghost<int>, Ghost(sc): Ghost<int>) -> (best: i32)
        requires
            self.shaped(),
            in_bounds(self.grid(), sr, sc),
            self.dist()[sr][sc] == 0,
            in_range(self.grid(), self.dist()),
        ensures
            is_max_of(self.grid(), self.dist(), best as int),
            0 <= best < MAX_TILES,
    {
        let ghost g = self.grid();
        let ghost d = self.dist();
        proof {
            lemma_rows_of(self.tiles@);
            lemma_rows_of(self.memo@);
        }
        let mut best: i32 = 0;
        let mut i: usize = 0;
        while i < self.memo.len()
            invariant
                g == self.grid(),
                d == self.dist(),
                self.shaped(),
                in_range(g, d),
                0 <= i <= d.len(),
                0 <= best < MAX_TILES,
                exists|r: int, c: int| #[trigger] in_bounds(g, r, c) && d[r][c] == best,
                forall|r: int, c: int| #[trigger] in_bounds(g, r, c) && r < i ==> d[r][c] <= best,
                forall|j: int| 0 <= j < self.memo@.len() ==> #[trigger] self.memo@[j]@ == d[j],
            decreases d.len() - i,
        {
            let mut j: usize = 0;
            while j < self.memo[i].len()
                invariant
                    g == self.grid(),
                    d == self.dist(),
                    self.shaped(),
                    in_range(g, d),
                    0 <= i < d.len(),
                    0 <= j <= d[i as int].len(),
                    0 <= best < MAX_TILES,
                    exists|r: int, c: int| #[trigger] in_bounds(g, r, c) && d[r][c] == best,
                    forall|r: int, c: int|
                        #[trigger] in_bounds(g, r, c) && (r < i || (r == i && c < j)) ==> d[r][c] <= best,
                    forall|j: int| 0 <= j < self.memo@.len() ==> #[trigger] self.memo@[j]@ == d[j],
                decreases d[i as int].len() - j,
            {
                let v = self.memo[i][j];
                assert(in_bounds(g, i as int, j as int));
                if v > best {
                    best = v;
                }
                j = j + 1;
            }
            i = i + 1;
        }
        best
    }

    /// `u` moved by `i`.
    pub fn add_ui(u: usize, i: i32) -> (r: usize)
        requires
            u <= i32::MAX,
            0 <= u + i <= i32::MAX,
        ensures
            r == u + i,
    {
        (u as i32 + i) as usize
    }

    /// How many unreached tiles lie in the row of `position`, left of it (in the
    /// whole row where the column lies beyond it).
    pub fn without_pipe_area(&self, position: (usize, usize)) -> (i: i64)
        requires
            self.shaped(),
            position.0 < self.grid().len(),
        ensures
            i == open_left_of(
                self.dist(),
                position.0 as int,
                if position.1 < self.grid()[0].len() {
                    position.1 as int
                } else {
                    self.grid()[0].len() as int
                },
            ),
            0 <= i <= position.1,
    {
        proof {
            lemma_rows_of(self.memo@);
            let g = self.grid();
            assert(g[position.0 as int].len() == g[0].len());
            assert(g[0].len() <= MAX_TILES) by (nonlinear_arith)
                requires
                    g.len() >= 1,
                    g.len() * g[0].len() <= MAX_TILES,
            ;
        }
        let ghost row = self.dist()[position.0 as int];
        let mut i: i64 = 0;
        let mut idx: usize = 0;
        while idx < self.memo[position.0].len()
            invariant
                position.0 < self.memo@.len(),
                row == self.memo@[position.0 as int]@,
                row == self.dist()[position.0 as int],
                row.len() == self.grid()[0].len(),
                row.len() <= MAX_TILES,
                0 <= idx <= position.1,
                idx <= row.len(),
                i == count_row(row.take(idx as int), -1i32),
                i <= idx,
            decreases row.len() - idx,
        {
            if idx == position.1 {
                return i;
            }
            proof {
                lemma_take_count(row, idx as int);
            }
            if self.memo[position.0][idx] == -1 {
                i += 1;
            }
            idx = idx + 1;
        }
        i
    }

    /// One try of the area walk: from `position`, by the offsets, onto an enterable
    /// tile at distance `want_a` or `want_b`. A move marks `position` passed and
    /// adds its share to `area`.
    fn walk_step(
        &mut self,
        position: (usize, usize),
        row_offset: i32,
        col_offset: i32,
        want_a: i32,
        want_b: i32,
        area: i64,
    ) -> (res: ((usize, usize), i64, bool))
        requires
            old(self).wf(),
            in_bounds(old(self).grid(), position.0 as int, position.1 as int),
            is_unit(row_offset as int, col_offset as int),
            want_a != -2,
            want_b != -2,
            i64::MIN + old(self).grid()[0].len() <= area <= i64::MAX - old(self).grid()[0].len(),
        ensures
            final(self).wf(),
            final(self).grid() == old(self).grid(),
            final(self).farthest_seen() == old(self).farthest_seen(),
            ({
                let g = old(self).grid();
                let d = old(self).dist();
                let nr = position.0 + row_offset;
                let nc = position.1 + col_offset;
                let k = dir_of(row_offset as int, col_offset as int);
                &&& res.2 <==> (can_enter(g, position.0 as int, position.1 as int, k) && (d[nr][nc]
                    == want_a || d[nr][nc] == want_b))
                &&& !res.2 ==> final(self).dist() == d && res.0 == position && res.1 == area
                &&& res.2 ==> {
                    &&& final(self).dist() == set_at(d, position.0 as int, position.1 as int, -2i32)
                    &&& res.0.0 == nr && res.0.1 == nc
                    &&& in_bounds(g, nr, nc)
                    &&& res.1 == area + walk_delta(final(self).dist(), position.0 as int, position.1 as int, nr, nc)
                    &&& area - g[0].len() <= res.1 <= area + g[0].len()
                }
            }),
    {
        proof {
            lemma_rows_of(self.tiles@);
            lemma_rows_of(self.memo@);
            lemma_coords_fit(self.grid(), position.0 as int, position.1 as int);
        }
        if !self.tile_within_map(row_offset + position.0 as i32, col_offset + position.1 as i32) {
            return (position, area, false);
        }
        if self.tile_unreachable(position, row_offset, col_offset) {
            return (position, area, false);
        }
        let nr = Self::add_ui(position.0, row_offset);
        let nc = Self::add_ui(position.1, col_offset);
        let v = self.memo[nr][nc];
        if v == want_a || v == want_b {
            let ghost d0 = self.dist();
            self.set_dist(position.0, position.1, -2);
            proof {
                lemma_set_at(d0, position.0 as int, position.1 as int, -2i32);
                assert(nr < self.grid().len() && nc < self.grid()[nr as int].len());
                assert(self.grid()[nr as int].len() == self.grid()[0].len());
                assert(self.grid()[position.0 as int].len() == self.grid()[0].len());
            }
            let new_area = if row_offset == 1 {
                area - self.without_pipe_area(position)
            } else if row_offset == -1 {
                area + self.without_pipe_area((nr, nc))
            } else {
                area
            };
            ((nr, nc), new_area, true)
        } else {
            (position, area, false)
        }
    }

    /// The offsets tried `j`-th by the area walk.
    fn walk_offset(j: usize) -> (o: (i32, i32))
        requires
            j < 4,
        ensures
            o.0 as int == walk_off(j as int).0,
            o.1 as int == walk_off(j as int).1,
    {
        if j == 0 {
            (1, 0)
        } else if j == 1 {
            (-1, 0)
        } else if j == 2 {
            (0, 1)
        } else {
            (0, -1)
        }
    }

    /// Walks the loop from the start out to the farthest distance and back to the
    /// start, marking each tile it leaves as passed (`-2`), and returns the
    /// signed area it sums on the way: the two walks of `loop_walk`.
    pub fn traverse_main_loop(&mut self) -> (r: Result<i64, PipeError>)
        requires
            old(self).wf(),
        ensures
            final(self).wf(),
            final(self).grid() == old(self).grid(),
            final(self).farthest_seen() == old(self).farthest_seen(),
            (r == Err::<i64, PipeError>(PipeError::MissingStart)) <==> !has_start(old(self).grid()),
            has_start(old(self).grid()) ==> match loop_walk(
                old(self).grid(),
                old(self).dist(),
                old(self).farthest_seen(),
            ) {
                Some(w) => (r matches Ok(a) && a == w.1) && final(self).dist() == w.0,
                None => r == Err::<i64, PipeError>(PipeError::BrokenLoop),
            },
    {
        let start = match self.locate_start() {
            Some(p) => p,
            None => {
                return Err(PipeError::MissingStart);
            },
        };
        let ghost g = self.grid();
        let ghost cols = g[0].len() as int;
        let ghost total = g.len() * g[0].len();
        let ghost far = self.farthest_seen();
        let ghost d_init = self.dist();
        proof {
            lemma_rows_of(self.tiles@);
            assert(in_bounds(g, start.0 as int, start.1 as int));
            assert(has_start(g));
            assert(g[start.0 as int].len() == g[0].len());
            lemma_count_bound(self.dist(), cols, -2i32);
            assert(total <= MAX_TILES);
            let p = start_of(g);
            assert(is_first_start(g, p.0, p.1));
            lemma_first_start_unique(g, start.0 as int, start.1 as int, p.0, p.1);
        }
        let ghost fuel0: nat = (total + 2) as nat;
        let ghost mut fuel: nat = fuel0;
        let mut position = start;
        let mut area: i64 = 0;
        let ghost mut moves: int = 0;
        let ghost m0 = walk_measure(g, self.dist(), position.0 as int, position.1 as int);
        loop
            invariant
                self.wf(),
                self.grid() == g,
                old(self).grid() == g,
                has_start(g),
                is_first_start(g, start.0 as int, start.1 as int),
                self.farthest_seen() == far,
                far == old(self).farthest_seen(),
                d_init == old(self).dist(),
                start_of(g) == (start.0 as int, start.1 as int),
                0 <= far < MAX_TILES,
                cols == g[0].len(),
                total == g.len() * g[0].len(),
                in_bounds(g, position.0 as int, position.1 as int),
                0 <= moves,
                moves + walk_measure(g, self.dist(), position.0 as int, position.1 as int) <= m0,
                m0 <= total + 1,
                fuel0 == (total + 2) as nat,
                fuel >= walk_measure(g, self.dist(), position.0 as int, position.1 as int) + 1,
                walk_out(g, self.dist(), position.0 as int, position.1 as int, area as int, far, fuel)
                    == walk_out(g, d_init, start.0 as int, start.1 as int, 0, far, fuel0),
                -(moves * cols) <= area <= moves * cols,
            ensures
                self.wf(),
                self.grid() == g,
                self.farthest_seen() == far,
                in_bounds(g, position.0 as int, position.1 as int),
                0 <= moves <= total + 1,
                -(moves * cols) <= area <= moves * cols,
                self.dist()[position.0 as int][position.1 as int] >= 0,
                walk_out(g, d_init, start.0 as int, start.1 as int, 0, far, fuel0) == Some(
                    (self.dist(), position.0 as int, position.1 as int, area as int),
                ),
            decreases walk_measure(g, self.dist(), position.0 as int, position.1 as int),
        {
            proof {
                lemma_rows_of(self.memo@);
                lemma_measure_nonneg(g, self.dist(), position.0 as int, position.1 as int);
            }
            let pos_val = self.memo[position.0][position.1];
            if pos_val == self.farthest as i32 {
                break;
            }
            let ghost m_start = walk_measure(g, self.dist(), position.0 as int, position.1 as int);
            let ghost d_s = self.dist();
            let ghost p_s = position;
            let ghost a_s = area;
            let mut moved = false;
            let mut j: usize = 0;
            while j < 4
                invariant
                    self.wf(),
                    self.grid() == g,
                    self.farthest_seen() == far,
                    cols == g[0].len(),
                    total == g.len() * g[0].len(),
                    in_bounds(g, position.0 as int, position.1 as int),
                    -2 <= pos_val < MAX_TILES,
                    0 <= moves,
                    moves + walk_measure(g, self.dist(), position.0 as int, position.1 as int) <= m0,
                    m0 <= total + 1,
                    -(moves * cols) <= area <= moves * cols,
                    j <= 4,
                    moved ==> walk_measure(g, self.dist(), position.0 as int, position.1 as int) < m_start,
                    !moved ==> walk_measure(g, self.dist(), position.0 as int, position.1 as int) == m_start,
                    sweep(g, self.dist(), position.0 as int, position.1 as int, area as int, (pos_val + 1) as i32, (pos_val + 1) as i32, j as int, moved)
                        == sweep(g, d_s, p_s.0 as int, p_s.1 as int, a_s as int, (pos_val + 1) as i32, (pos_val + 1) as i32, 0, false),
                decreases 4 - j,
            {
                let (row_offset, col_offset) = Self::walk_offset(j);
                proof {
                    lemma_measure_nonneg(g, self.dist(), position.0 as int, position.1 as int);
                    assert(moves <= total + 1);
                    assert(cols <= MAX_TILES) by (nonlinear_arith)
                        requires total == g.len() * cols, g.len() >= 1, cols >= 0, total <= MAX_TILES;
                    assert(moves * cols <= (MAX_TILES + 1) * MAX_TILES) by (nonlinear_arith)
                        requires moves <= total + 1, total <= MAX_TILES, 0 <= cols <= MAX_TILES, moves >= 0;
                    assert((MAX_TILES + 1) * MAX_TILES == 1152921505680588800);
                }
                let ghost d0 = self.dist();
                let ghost p0 = position;
                let (p, a, ok) = self.walk_step(position, row_offset, col_offset, pos_val + 1, pos_val + 1, area);
                if ok {
                    proof {
                        lemma_count_update(d0, p0.0 as int, p0.1 as int, -2i32, -2i32);
                        lemma_set_at(d0, p0.0 as int, p0.1 as int, -2i32);
                        let m1 = moves;
                        moves = moves + 1;
                        assert(moves * cols == m1 * cols + cols) by (nonlinear_arith)
                            requires moves == m1 + 1;
                    }
                    position = p;
                    area = a;
                    moved = true;
                }
                j = j + 1;
            }
            proof {
                lemma_measure_nonneg(g, self.dist(), position.0 as int, position.1 as int);
            }
            proof {
                assert(sweep(g, self.dist(), position.0 as int, position.1 as int, area as int, (pos_val + 1) as i32, (pos_val + 1) as i32, 4, moved)
                    == (self.dist(), position.0 as int, position.1 as int, area as int, moved));
                assert(walk_out(g, d_s, p_s.0 as int, p_s.1 as int, a_s as int, far, fuel) == if moved {
                    walk_out(g, self.dist(), position.0 as int, position.1 as int, area as int, far, (fuel - 1) as nat)
                } else {
                    None
                });
            }
            if !moved {
                return Err(PipeError::BrokenLoop);
            }
            proof {
                fuel = (fuel - 1) as nat;
            }
        }
        let ghost d_end = self.dist();
        self.set_dist(start.0, start.1, 0);
        proof {
            lemma_set_at(d_end, start.0 as int, start.1 as int, 0);
            lemma_measure_nonneg(g, self.dist(), position.0 as int, position.1 as int);
            lemma_count_bound(self.dist(), cols, -2i32);
            assert forall|i: int| 0 <= i < self.dist().len() implies #[trigger] self.dist()[i].len() == cols by {
                assert(g[i].len() == g[0].len());
            }
            fuel = fuel0;
        }
        let ghost d_back = self.dist();
        let ghost pos_back = position;
        let ghost area_back = area;
        proof {
            assert(d_back == set_at(d_end, start.0 as int, start.1 as int, 0i32));
            assert(fuel0 == (g.len() * g[0].len() + 2) as nat);
        }
        let ghost m1 = walk_measure(g, self.dist(), position.0 as int, position.1 as int);
        loop
            invariant
                self.wf(),
                self.grid() == g,
                self.farthest_seen() == far,
                far == old(self).farthest_seen(),
                d_init == old(self).dist(),
                start_of(g) == (start.0 as int, start.1 as int),
                0 <= far < MAX_TILES,
                cols == g[0].len(),
                total == g.len() * g[0].len(),
                total <= MAX_TILES,
                in_bounds(g, position.0 as int, position.1 as int),
                self.dist()[position.0 as int][position.1 as int] >= 0,
                0 <= moves,
                moves + walk_measure(g, self.dist(), position.0 as int, position.1 as int) <= m1 + total + 1,
                m1 <= total,
                fuel >= walk_measure(g, self.dist(), position.0 as int, position.1 as int) + 1,
                walk_back(g, self.dist(), position.0 as int, position.1 as int, area as int, far, fuel)
                    == walk_back(g, d_back, pos_back.0 as int, pos_back.1 as int, area_back as int, far, fuel0),
                -(moves * cols) <= area <= moves * cols,
                old(self).grid() == g,
                has_start(g),
                far == old(self).farthest_seen(),
                d_init == old(self).dist(),
                start_of(g) == (start.0 as int, start.1 as int),
                walk_out(g, d_init, start.0 as int, start.1 as int, 0, far, fuel0) == Some(
                    (d_end, pos_back.0 as int, pos_back.1 as int, area_back as int),
                ),
                d_back == set_at(d_end, start.0 as int, start.1 as int, 0i32),
                fuel0 == (g.len() * g[0].len() + 2) as nat,
            ensures
                self.wf(),
                self.grid() == g,
                self.farthest_seen() == far,
                walk_back(g, d_back, pos_back.0 as int, pos_back.1 as int, area_back as int, far, fuel0) == Some(
                    (self.dist(), position.0 as int, position.1 as int, area as int),
                ),
            decreases walk_measure(g, self.dist(), position.0 as int, position.1 as int),
        {
            proof {
                lemma_rows_of(self.memo@);
                lemma_measure_nonneg(g, self.dist(), position.0 as int, position.1 as int);
            }
            let pos_val = self.memo[position.0][position.1];
            if pos_val == 0 {
                break;
            }
            let ghost m_start = walk_measure(g, self.dist(), position.0 as int, position.1 as int);
            let ghost d_s = self.dist();
            let ghost p_s = position;
            let ghost a_s = area;
            let mut moved = false;
            let mut j: usize = 0;
            while j < 4
                invariant
                    self.wf(),
                    self.grid() == g,
                    self.farthest_seen() == far,
                    0 <= far < MAX_TILES,
                    cols == g[0].len(),
                    total == g.len() * g[0].len(),
                    total <= MAX_TILES,
                    in_bounds(g, position.0 as int, position.1 as int),
                    self.dist()[position.0 as int][position.1 as int] >= 0,
                    1 <= pos_val < MAX_TILES,
                    0 <= moves,
                    moves + walk_measure(g, self.dist(), position.0 as int, position.1 as int) <= m1 + total + 1,
                    m1 <= total,
                    -(moves * cols) <= area <= moves * cols,
                    j <= 4,
                    moved ==> walk_measure(g, self.dist(), position.0 as int, position.1 as int) < m_start,
                    !moved ==> walk_measure(g, self.dist(), position.0 as int, position.1 as int) == m_start,
                    sweep(g, self.dist(), position.0 as int, position.1 as int, area as int, (pos_val - 1) as i32, far as i32, j as int, moved)
                        == sweep(g, d_s, p_s.0 as int, p_s.1 as int, a_s as int, (pos_val - 1) as i32, far as i32, 0, false),
                decreases 4 - j,
            {
                let (row_offset, col_offset) = Self::walk_offset(j);
                proof {
                    lemma_measure_nonneg(g, self.dist(), position.0 as int, position.1 as int);
                    assert(moves <= 2 * total + 1);
                    assert(cols <= MAX_TILES) by (nonlinear_arith)
                        requires total == g.len() * cols, g.len() >= 1, cols >= 0, total <= MAX_TILES;
                    assert(moves * cols <= (2 * MAX_TILES + 1) * MAX_TILES) by (nonlinear_arith)
                        requires moves <= 2 * total + 1, total <= MAX_TILES, 0 <= cols <= MAX_TILES, moves >= 0;
                    assert((2 * MAX_TILES + 1) * MAX_TILES == 2305843010287435776);
                }
                let ghost d0 = self.dist();
                let ghost p0 = position;
                let (p, a, ok) = self.walk_step(position, row_offset, col_offset, pos_val - 1, self.farthest as i32, area);
                if ok {
                    proof {
                        lemma_count_update(d0, p0.0 as int, p0.1 as int, -2i32, -2i32);
                        lemma_set_at(d0, p0.0 as int, p0.1 as int, -2i32);
                        let mv = moves;
                        moves = moves + 1;
                        assert(moves * cols == mv * cols + cols) by (nonlinear_arith)
                            requires moves == mv + 1;
                    }
                    position = p;
                    area = a;
                    moved = true;
                }
                j = j + 1;
            }
            proof {
                lemma_measure_nonneg(g, self.dist(), position.0 as int, position.1 as int);
            }
            proof {
                assert(sweep(g, self.dist(), position.0 as int, position.1 as int, area as int, (pos_val - 1) as i32, far as i32, 4, moved)
                    == (self.dist(), position.0 as int, position.1 as int, area as int, moved));
                assert(walk_back(g, d_s, p_s.0 as int, p_s.1 as int, a_s as int, far, fuel) == if moved {
                    walk_back(g, self.dist(), position.0 as int, position.1 as int, area as int, far, (fuel - 1) as nat)
                } else {
                    None
                });
            }
            if !moved {
                return Err(PipeError::BrokenLoop);
            }
            proof {
                fuel = (fuel - 1) as nat;
            }
        }
        Ok(area)
    }

    /// The distance map, row by row.
    pub fn distances(&self) -> (r: &Vec<Vec<i32>>)
        ensures
            rows_of(r@) == self.dist(),
    {
        &self.memo
    }
}

} // verus!
