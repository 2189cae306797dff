//! A sky image of galaxies (`#`) in which every empty row and every empty
//! column counts as several: the sum of the distances between all pairs of
//! galaxies.

use crate::text::{is_rectangular, lemma_rows_of, lines_of, rows_of, split_rows};
use itertools::Itertools;
use vstd::prelude::*;

verus! {

/// A galaxy's row and column.
pub type Galaxy = (usize, usize);

/// How much an empty row or column counts for in `Cosmo::new`.
pub const EXPANSION: u64 = 1_000_000;

/// Row `r` of `g` holds a galaxy.
pub open spec fn row_has_galaxy(g: Seq<Seq<char>>, r: int) -> bool {
    exists|c: int| 0 <= c < g[r].len() && #[trigger] g[r][c] == '#'
}

/// Column `c` of `g` holds a galaxy.
pub open spec fn col_has_galaxy(g: Seq<Seq<char>>, c: int) -> bool {
    exists|r: int| 0 <= r < g.len() && #[trigger] g[r][c] == '#'
}

/// The weight of each row, then of each column: `factor` where it is empty, else 1.
pub open spec fn weights_of(g: Seq<Seq<char>>, factor: u64) -> Seq<u64> {
    Seq::new(
        (g.len() + g[0].len()) as nat,
        |i: int|
            if i < g.len() {
                if row_has_galaxy(g, i) {
                    1u64
                } else {
                    factor
                }
            } else if col_has_galaxy(g, i - g.len()) {
                1u64
            } else {
                factor
            },
    )
}

/// The galaxies in the first `n` columns of row `r`, left to right.
pub open spec fn row_galaxies(g: Seq<Seq<char>>, r: int, n: int) -> Seq<Galaxy>
    decreases n,
{
    if n <= 0 {
        seq![]
    } else if g[r][n - 1] == '#' {
        row_galaxies(g, r, n - 1).push((r as usize, (n - 1) as usize))
    } else {
        row_galaxies(g, r, n - 1)
    }
}

/// The galaxies in the first `n` rows, in row-major order.
pub open spec fn galaxies_upto(g: Seq<Seq<char>>, n: int) -> Seq<Galaxy>
    decreases n,
{
    if n <= 0 {
        seq![]
    } else {
        galaxies_upto(g, n - 1) + row_galaxies(g, n - 1, g[n - 1].len() as int)
    }
}

/// Every pair of items of `s`, the earlier first, ordered by the first item's
/// position, then the second's.
pub open spec fn pairs_of(s: Seq<Galaxy>) -> Seq<(Galaxy, Galaxy)>
    decreases s.len(),
{
    if s.len() == 0 {
        seq![]
    } else {
        s.drop_first().map_values(|x: Galaxy| (s[0], x)) + pairs_of(s.drop_first())
    }
}

/// `w[lo] + ... + w[hi - 1]`.
pub open spec fn weight_sum(w: Seq<u64>, lo: int, hi: int) -> int
    decreases hi - lo,
{
    if hi <= lo {
        0
    } else {
        weight_sum(w, lo, hi - 1) + w[hi - 1]
    }
}

pub open spec fn min_of(a: int, b: int) -> int {
    if a > b {
        b
    } else {
        a
    }
}

pub open spec fn max_of(a: int, b: int) -> int {
    if a > b {
        a
    } else {
        b
    }
}

/// The weighted distance between two galaxies: the weights of the columns
/// crossed going across, and of the rows crossed going down.
pub open spec fn distance(w: Seq<u64>, rows: int, a: Galaxy, b: Galaxy) -> int {
    weight_sum(w, rows + min_of(a.1 as int, b.1 as int), rows + max_of(a.1 as int, b.1 as int))
        + weight_sum(w, min_of(a.0 as int, b.0 as int), max_of(a.0 as int, b.0 as int))
}

/// The sum of the distances of the pairs in `ps`.
pub open spec fn total_distance(w: Seq<u64>, rows: int, ps: Seq<(Galaxy, Galaxy)>) -> int
    decreases ps.len(),
{
    if ps.len() == 0 {
        0
    } else {
        total_distance(w, rows, ps.drop_last()) + distance(w, rows, ps.last().0, ps.last().1)
    }
}

proof fn lemma_weight_sum_mono(w: Seq<u64>, lo: int, mid: int, hi: int)
    requires
        lo <= mid <= hi,
    ensures
        0 <= weight_sum(w, lo, mid) <= weight_sum(w, lo, hi),
    decreases hi - mid,
{
    if mid < hi {
        lemma_weight_sum_mono(w, lo, mid, hi - 1);
    }
    lemma_weight_sum_nonneg(w, lo, mid);
}

proof fn lemma_weight_sum_nonneg(w: Seq<u64>, lo: int, hi: int)
    ensures
        weight_sum(w, lo, hi) >= 0,
    decreases hi - lo,
{
    if hi > lo {
        lemma_weight_sum_nonneg(w, lo, hi - 1);
    }
}

proof fn lemma_total_mono(w: Seq<u64>, rows: int, ps: Seq<(Galaxy, Galaxy)>, n: int)
    requires
        0 <= n <= ps.len(),
    ensures
        0 <= total_distance(w, rows, ps.take(n)) <= total_distance(w, rows, ps),
    decreases ps.len(),
{
    if ps.len() > 0 {
        let a = ps.last().0;
        let b = ps.last().1;
        lemma_weight_sum_nonneg(w, rows + min_of(a.1 as int, b.1 as int), rows + max_of(a.1 as int, b.1 as int));
        lemma_weight_sum_nonneg(w, min_of(a.0 as int, b.0 as int), max_of(a.0 as int, b.0 as int));
        if n == ps.len() {
            assert(ps.take(n) =~= ps);
            lemma_total_mono(w, rows, ps.drop_last(), 0);
        } else {
            lemma_total_mono(w, rows, ps.drop_last(), n);
            assert(ps.drop_last().take(n) =~= ps.take(n));
        }
    } else {
        assert(ps.take(n) =~= ps);
    }
}

/// Every galaxy of `s` lies within `rows` rows and `cols` columns.
pub open spec fn all_within(s: Seq<Galaxy>, rows: int, cols: int) -> bool {
    forall|i: int| #![trigger s[i]] 0 <= i < s.len() ==> s[i].0 < rows && s[i].1 < cols
}

proof fn lemma_row_galaxies_within(g: Seq<Seq<char>>, r: int, n: int, cols: int)
    requires
        0 <= r <= usize::MAX,
        n <= cols <= usize::MAX,
    ensures
        all_within(row_galaxies(g, r, n), r + 1, cols),
    decreases n,
{
    if n > 0 {
        lemma_row_galaxies_within(g, r, n - 1, cols);
    }
}

proof fn lemma_galaxies_within(g: Seq<Seq<char>>, n: int)
    requires
        is_rectangular(g),
        n <= g.len(),
        g.len() + g[0].len() <= usize::MAX,
    ensures
        all_within(galaxies_upto(g, n), n, g[0].len() as int),
    decreases n,
{
    if n > 0 {
        lemma_galaxies_within(g, n - 1);
        assert(g[n - 1].len() == g[0].len());
        lemma_row_galaxies_within(g, n - 1, g[n - 1].len() as int, g[0].len() as int);
        let a = galaxies_upto(g, n - 1);
        let b = row_galaxies(g, n - 1, g[n - 1].len() as int);
        assert forall|i: int| 0 <= i < a.len() + b.len() implies #[trigger] (a + b)[i].0 < n && (a
            + b)[i].1 < g[0].len() by {
            if i < a.len() {
                assert((a + b)[i] == a[i]);
            } else {
                assert((a + b)[i] == b[i - a.len()]);
            }
        }
    }
}

proof fn lemma_pairs_within(s: Seq<Galaxy>, rows: int, cols: int)
    requires
        all_within(s, rows, cols),
    ensures
        forall|i: int|
            0 <= i < pairs_of(s).len() ==> {
                &&& (#[trigger] pairs_of(s)[i]).0.0 < rows
                &&& pairs_of(s)[i].0.1 < cols
                &&& pairs_of(s)[i].1.0 < rows
                &&& pairs_of(s)[i].1.1 < cols
            },
    decreases s.len(),
{
    if s.len() > 0 {
        let t = s.drop_first();
        assert(all_within(t, rows, cols)) by {
            assert forall|i: int| 0 <= i < t.len() implies #[trigger] t[i].0 < rows && t[i].1 < cols by {
                assert(t[i] == s[i + 1]);
            }
        }
        lemma_pairs_within(t, rows, cols);
        let a = t.map_values(|x: Galaxy| (s[0], x));
        let b = pairs_of(t);
        assert(s[0].0 < rows && s[0].1 < cols);
        assert forall|i: int| 0 <= i < a.len() + b.len() implies {
            &&& (#[trigger] (a + b)[i]).0.0 < rows
            &&& (a + b)[i].0.1 < cols
            &&& (a + b)[i].1.0 < rows
            &&& (a + b)[i].1.1 < cols
        } by {
            if i < a.len() {
                assert((a + b)[i] == a[i]);
                assert(t[i] == s[i + 1]);
            } else {
                assert((a + b)[i] == b[i - a.len()]);
            }
        }
    }
}

/// The start and end of the span between the keys of two galaxies.
fn range_between<F>(g1: Galaxy, g2: Galaxy, get_key: F) -> (r: std::ops::Range<usize>) where
    F: Fn(Galaxy) -> usize,

    requires
        get_key.requires((g1,)),
        get_key.requires((g2,)),
    ensures
        exists|k1: usize, k2: usize|
            get_key.ensures((g1,), k1) && get_key.ensures((g2,), k2) && r.start == min_of(
                k1 as int,
                k2 as int,
            ) && r.end == max_of(k1 as int, k2 as int),
{
    let k1 = get_key(g1);
    let k2 = get_key(g2);
    let r = if k1 > k2 {
        k2..k1
    } else {
        k1..k2
    };
    assert(get_key.ensures((g1,), k1) && get_key.ensures((g2,), k2) && r.start == min_of(
        k1 as int,
        k2 as int,
    ) && r.end == max_of(k1 as int, k2 as int));
    r
}

/// The rows between two galaxies.
fn range_between_row(g1: Galaxy, g2: Galaxy) -> (r: std::ops::Range<usize>)
    ensures
        r.start == min_of(g1.0 as int, g2.0 as int),
        r.end == max_of(g1.0 as int, g2.0 as int),
{
    range_between(g1, g2, |x: Galaxy| -> (k: usize) ensures k == x.0 { x.0 })
}

/// The columns between two galaxies.
fn range_between_col(g1: Galaxy, g2: Galaxy) -> (r: std::ops::Range<usize>)
    ensures
        r.start == min_of(g1.1 as int, g2.1 as int),
        r.end == max_of(g1.1 as int, g2.1 as int),
{
    range_between(g1, g2, |x: Galaxy| -> (k: usize) ensures k == x.1 { x.1 })
}

/// Relies on itertools' `tuple_combinations`, which yields each pair of items,
/// the earlier first, in lexicographic order of their positions.
#[verifier::external_body]
#[allow(deprecated)]
fn pairs_in_order(gs: Vec<Galaxy>) -> (r: Vec<(Galaxy, Galaxy)>)
    ensures
        r@ == pairs_of(gs@),
{
    gs.into_iter().tuple_combinations().collect()
}

/// A sky image and the weight of each of its rows, then of each of its columns.
pub struct Cosmo {
    map: Vec<Vec<char>>,
    weight: Vec<u64>,
    row_count: usize,
    col_count: usize,
}

impl Cosmo {
    /// The image, row by row.
    pub closed spec fn grid(&self) -> Seq<Seq<char>> {
        rows_of(self.map@)
    }

    /// The weights of the rows, then of the columns.
    pub closed spec fn weights(&self) -> Seq<u64> {
        self.weight@
    }

    pub closed spec fn rows(&self) -> int {
        self.row_count as int
    }

    pub closed spec fn cols(&self) -> int {
        self.col_count as int
    }

    /// The image is rectangular and the counts and weights match it.
    pub open spec fn wf(&self) -> bool {
        &&& is_rectangular(self.grid())
        &&& self.rows() == self.grid().len()
        &&& self.cols() == self.grid()[0].len()
        &&& self.weights().len() == self.rows() + self.cols()
        &&& self.rows() + self.cols() <= usize::MAX
    }

    /// No row of `map` holds a galaxy in column `col_idx`.
    pub fn col_not_contain_galaxy(map: &Vec<Vec<char>>, col_idx: usize) -> (r: bool)
        requires
            forall|i: int| 0 <= i < map@.len() ==> col_idx < #[trigger] map@[i]@.len(),
        ensures
            r == !col_has_galaxy(rows_of(map@), col_idx as int),
    {
        let ghost g = rows_of(map@);
        let mut i: usize = 0;
        while i < map.len()
            invariant
                g == rows_of(map@),
                forall|i: int| 0 <= i < map@.len() ==> col_idx < #[trigger] map@[i]@.len(),
                0 <= i <= map@.len(),
                forall|r: int| 0 <= r < i ==> #[trigger] g[r][col_idx as int] != '#',
            decreases map@.len() - i,
        {
            if map[i][col_idx] == '#' {
                assert(g[i as int][col_idx as int] == '#');
                return false;
            }
            i = i + 1;
        }
        true
    }

    /// Reads an image, counting each empty row and column as `EXPANSION`.
    pub fn new(s: &str) -> (c: Cosmo)
        requires
            is_rectangular(lines_of(s@)),
            lines_of(s@).len() + lines_of(s@)[0].len() <= usize::MAX,
        ensures
            c.wf(),
            c.grid() == lines_of(s@),
            c.weights() == weights_of(lines_of(s@), EXPANSION),
    {
        Self::with_expansion(s, EXPANSION)
    }

    /// Reads an image, counting each empty row and column as `factor`.
    pub fn with_expansion(s: &str, factor: u64) -> (c: Cosmo)
        requires
            is_rectangular(lines_of(s@)),
            lines_of(s@).len() + lines_of(s@)[0].len() <= usize::MAX,
        ensures
            c.wf(),
            c.grid() == lines_of(s@),
            c.weights() == weights_of(lines_of(s@), factor),
    {
        let map = split_rows(s);
        let ghost g = lines_of(s@);
        proof {
            lemma_rows_of(map@);
        }
        let row_count = map.len();
        let col_count = map[0].len();
        assert(map@[0]@ == g[0]);
        assert(row_count + col_count <= usize::MAX);
        let mut weight: Vec<u64> = Vec::new();
        let mut k: usize = 0;
        while k < row_count + col_count
            invariant
                weight@.len() == k,
                row_count + col_count <= usize::MAX,
                k <= row_count + col_count,
                forall|i: int| 0 <= i < k ==> #[trigger] weight@[i] == 1,
            decreases row_count + col_count - k,
        {
            weight.push(1);
            k = k + 1;
        }
        let mut row_idx: usize = 0;
        while row_idx < row_count
            invariant
                rows_of(map@) == g,
                is_rectangular(g),
                row_count == g.len(),
                col_count == g[0].len(),
                map@.len() == g.len(),
                forall|i: int| 0 <= i < map@.len() ==> #[trigger] map@[i]@ == g[i],
                weight@.len() == row_count + col_count,
                row_count + col_count <= usize::MAX,
                row_idx <= row_count,
                forall|i: int|
                    0 <= i < row_idx ==> #[trigger] weight@[i] == weights_of(g, factor)[i],
                forall|i: int| row_idx <= i < row_count + col_count ==> #[trigger] weight@[i] == 1,
            decreases row_count - row_idx,
        {
            let mut found = false;
            let mut c: usize = 0;
            let ghost row = g[row_idx as int];
            while c < map[row_idx].len()
                invariant
                    row == map@[row_idx as int]@,
                    row_idx < map@.len(),
                    0 <= c <= row.len(),
                    found == exists|j: int| 0 <= j < c && row[j] == '#',
                decreases row.len() - c,
            {
                if map[row_idx][c] == '#' {
                    found = true;
                }
                c = c + 1;
            }
            if !found {
                weight.set(row_idx, factor);
            }
            proof {
                if found {
                    let j = choose|j: int| 0 <= j < row.len() && row[j] == '#';
                    assert(g[row_idx as int][j] == '#');
                }
            }
            row_idx = row_idx + 1;
        }
        let mut col_idx: usize = 0;
        while col_idx < col_count
            invariant
                rows_of(map@) == g,
                is_rectangular(g),
                row_count == g.len(),
                col_count == g[0].len(),
                map@.len() == g.len(),
                forall|i: int| 0 <= i < map@.len() ==> #[trigger] map@[i]@ == g[i],
                weight@.len() == row_count + col_count,
                row_count + col_count <= usize::MAX,
                col_idx <= col_count,
                forall|i: int|
                    0 <= i < row_count + col_idx ==> #[trigger] weight@[i] == weights_of(g, factor)[i],
                forall|i: int| row_count + col_idx <= i < row_count + col_count ==> #[trigger] weight@[i] == 1,
            decreases col_count - col_idx,
        {
            proof {
                assert forall|i: int| 0 <= i < map@.len() implies col_idx < #[trigger] map@[i]@.len() by {
                    assert(g[i].len() == g[0].len());
                }
            }
            if Self::col_not_contain_galaxy(&map, col_idx) {
                weight.set(row_count + col_idx, factor);
            }
            col_idx = col_idx + 1;
        }
        assert(weight@ =~= weights_of(g, factor));
        Self { map, weight, row_count, col_count }
    }

    /// The galaxies, in row-major order.
    pub fn find_galaxies(&self) -> (r: Vec<Galaxy>)
        requires
            self.wf(),
        ensures
            r@ == galaxies_upto(self.grid(), self.grid().len() as int),
    {
        let ghost g = self.grid();
        let mut galaxies: Vec<Galaxy> = Vec::new();
        let mut row_idx: usize = 0;
        while row_idx < self.map.len()
            invariant
                g == self.grid(),
                g == rows_of(self.map@),
                row_idx <= g.len(),
                galaxies@ == galaxies_upto(g, row_idx as int),
            decreases g.len() - row_idx,
        {
            let mut col_idx: usize = 0;
            while col_idx < self.map[row_idx].len()
                invariant
                    g == self.grid(),
                    g == rows_of(self.map@),
                    row_idx < g.len(),
                    col_idx <= g[row_idx as int].len(),
                    galaxies@ == galaxies_upto(g, row_idx as int) + row_galaxies(g, row_idx as int, col_idx as int),
                decreases g[row_idx as int].len() - col_idx,
            {
                if self.map[row_idx][col_idx] == '#' {
                    galaxies.push((row_idx, col_idx));
                }
                proof {
                    assert(galaxies@ =~= galaxies_upto(g, row_idx as int) + row_galaxies(g, row_idx as int, col_idx + 1));
                }
                col_idx = col_idx + 1;
            }
            row_idx = row_idx + 1;
        }
        galaxies
    }

    /// Every pair of galaxies, each once, in the order of `pairs_of`.
    pub fn find_pairs(&self) -> (r: Vec<(Galaxy, Galaxy)>)
        requires
            self.wf(),
        ensures
            r@ == pairs_of(galaxies_upto(self.grid(), self.grid().len() as int)),
    {
        let gs = self.find_galaxies();
        pairs_in_order(gs)
    }

    /// The weighted distance between two places of the image.
    pub fn find_distance(&self, start: Galaxy, end: Galaxy) -> (r: usize)
        requires
            self.wf(),
            start.0 < self.rows() && end.0 < self.rows(),
            start.1 < self.cols() && end.1 < self.cols(),
            distance(self.weights(), self.rows(), start, end) <= usize::MAX,
        ensures
            r == distance(self.weights(), self.rows(), start, end),
    {
        let ghost w = self.weights();
        let ghost rows = self.rows();
        let cr = range_between_col(start, end);
        let ghost hsum = weight_sum(w, rows + cr.start, rows + cr.end);
        let ghost vsum = weight_sum(w, min_of(start.0 as int, end.0 as int), max_of(start.0 as int, end.0 as int));
        proof {
            lemma_weight_sum_nonneg(w, rows + cr.start, rows + cr.end);
            lemma_weight_sum_nonneg(w, min_of(start.0 as int, end.0 as int), max_of(start.0 as int, end.0 as int));
        }
        let mut horizon: usize = 0;
        let mut x: usize = cr.start;
        while x < cr.end
            invariant
                w == self.weights(),
                rows == self.rows(),
                self.wf(),
                cr.start <= x <= cr.end,
                cr.end <= self.cols(),
                horizon == weight_sum(w, rows + cr.start, rows + x),
                hsum <= usize::MAX,
                hsum == weight_sum(w, rows + cr.start, rows + cr.end),
            decreases cr.end - x,
        {
            proof {
                lemma_weight_sum_mono(w, rows + cr.start, rows + x + 1, rows + cr.end);
            }
            horizon = horizon + self.weight[x + self.row_count] as usize;
            x = x + 1;
        }
        let rr = range_between_row(start, end);
        let mut vertical: usize = 0;
        let mut y: usize = rr.start;
        while y < rr.end
            invariant
                w == self.weights(),
                self.wf(),
                rr.start <= y <= rr.end,
                rr.end <= self.rows(),
                vertical == weight_sum(w, rr.start as int, y as int),
                vsum <= usize::MAX,
                vsum == weight_sum(w, rr.start as int, rr.end as int),
            decreases rr.end - y,
        {
            proof {
                lemma_weight_sum_mono(w, rr.start as int, y + 1, rr.end as int);
            }
            vertical = vertical + self.weight[y] as usize;
            y = y + 1;
        }
        vertical + horizon
    }

    /// The sum of the weighted distances over every pair of galaxies.
    pub fn find_all_distances(&self) -> (r: usize)
        requires
            self.wf(),
            total_distance(
                self.weights(),
                self.rows(),
                pairs_of(galaxies_upto(self.grid(), self.grid().len() as int)),
            ) <= usize::MAX,
        ensures
            r == total_distance(
                self.weights(),
                self.rows(),
                pairs_of(galaxies_upto(self.grid(), self.grid().len() as int)),
            ),
    {
        let ps = self.find_pairs();
        let ghost w = self.weights();
        let ghost rows = self.rows();
        proof {
            lemma_galaxies_within(self.grid(), self.grid().len() as int);
            lemma_pairs_within(galaxies_upto(self.grid(), self.grid().len() as int), self.rows(), self.cols());
        }
        let mut acc: usize = 0;
        let mut i: usize = 0;
        while i < ps.len()
            invariant
                self.wf(),
                w == self.weights(),
                rows == self.rows(),
                ps@ == pairs_of(galaxies_upto(self.grid(), self.grid().len() as int)),
                forall|i: int|
                    0 <= i < ps@.len() ==> {
                        &&& (#[trigger] ps@[i]).0.0 < rows
                        &&& ps@[i].0.1 < self.cols()
                        &&& ps@[i].1.0 < rows
                        &&& ps@[i].1.1 < self.cols()
                    },
                total_distance(w, rows, ps@) <= usize::MAX,
                0 <= i <= ps@.len(),
                acc == total_distance(w, rows, ps@.take(i as int)),
            decreases ps@.len() - i,
        {
            proof {
                lemma_total_mono(w, rows, ps@, i + 1);
                assert(ps@.take(i + 1).drop_last() =~= ps@.take(i as int));
                assert(ps@.take(i + 1).last() == ps@[i as int]);
                lemma_total_mono(w, rows, ps@.take(i + 1), i as int);
                assert(ps@.take(i + 1).take(i as int) =~= ps@.take(i as int));
            }
            let (a, b) = ps[i];
            acc = acc + self.find_distance(a, b);
            i = i + 1;
        }
        proof {
            assert(ps@.take(i as int) =~= ps@);
        }
        acc
    }
}

} // verus!
