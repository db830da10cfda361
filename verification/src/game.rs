//! The game state: a grid of tiles, a seeded random source and the score,
//! with the four directional shifts, the random tile spawner and the
//! game-over detector.

use vstd::prelude::*;

use grid::Grid;
use rand::rngs::StdRng;

use crate::board::{grid_cols, grid_get, grid_new, grid_rows, grid_seq, grid_set};
use crate::rng::{random_seed, rng_below, rng_from_seed, rng_one_in_ten};
use crate::{
    merge_spec, points_spec, seq_sum, zero_pad, merge_2048, Placement,
};

verus! {

/// The value of the cell at (r, c) of a board stored row by row.
pub open spec fn cell_at(s: Seq<usize>, cols: int, r: int, c: int) -> usize {
    s[r * cols + c]
}

/// Every cell of the board holds a tile.
pub open spec fn board_full(s: Seq<usize>) -> bool {
    forall|i: int| 0 <= i < s.len() ==> s[i] != 0
}

/// No cell holds the same value as the cell at its right or below it, so no
/// shift could merge anything.
pub open spec fn no_adjacent_equal(s: Seq<usize>, rows: int, cols: int) -> bool {
    &&& forall|r: int, c: int|
        0 <= r < rows && 0 <= c < cols - 1 ==> #[trigger] cell_at(s, cols, r, c) != cell_at(
            s,
            cols,
            r,
            c + 1,
        )
    &&& forall|r: int, c: int|
        0 <= r < rows - 1 && 0 <= c < cols ==> #[trigger] cell_at(s, cols, r, c) != cell_at(
            s,
            cols,
            r + 1,
            c,
        )
}

/// The board is frozen: full, and without a pair of equal 4-neighbours.
pub open spec fn spec_game_over(s: Seq<usize>, rows: int, cols: int) -> bool {
    board_full(s) && no_adjacent_equal(s, rows, cols)
}

/// Row `r` of the board, as a line.
pub open spec fn row_seq(s: Seq<usize>, cols: int, r: int) -> Seq<usize> {
    s.subrange(r * cols, r * cols + cols)
}

/// Column `c` of the board, as a line.
pub open spec fn col_seq(s: Seq<usize>, rows: int, cols: int, c: int) -> Seq<usize> {
    Seq::new(rows as nat, |i: int| s[i * cols + c])
}

/// The sum of the values of the first `r` rows.
pub open spec fn rows_sum(s: Seq<usize>, cols: int, r: int) -> int
    decreases r,
{
    if r <= 0 {
        0
    } else {
        rows_sum(s, cols, r - 1) + seq_sum(row_seq(s, cols, r - 1))
    }
}

/// The sum of the values of the first `c` columns.
pub open spec fn cols_sum(s: Seq<usize>, rows: int, cols: int, c: int) -> int
    decreases c,
{
    if c <= 0 {
        0
    } else {
        cols_sum(s, rows, cols, c - 1) + seq_sum(col_seq(s, rows, cols, c - 1))
    }
}

/// The points scored by merging each of the first `r` rows in the given
/// direction.
pub open spec fn rows_points(s: Seq<usize>, cols: int, r: int, dir: Placement) -> int
    decreases r,
{
    if r <= 0 {
        0
    } else {
        rows_points(s, cols, r - 1, dir) + points_spec(row_seq(s, cols, r - 1), dir)
    }
}

/// The points scored by merging each of the first `c` columns in the given
/// direction.
pub open spec fn cols_points(s: Seq<usize>, rows: int, cols: int, c: int, dir: Placement) -> int
    decreases c,
{
    if c <= 0 {
        0
    } else {
        cols_points(s, rows, cols, c - 1, dir) + points_spec(col_seq(s, rows, cols, c - 1), dir)
    }
}

/// A cell within the board's bounds sits within the flat contents.
proof fn lemma_flat_index_bound(r: int, c: int, rows: int, cols: int)
    requires
        0 <= r < rows,
        0 <= c < cols,
    ensures
        0 <= r * cols + c < rows * cols,
{
    assert(0 <= r * cols + c < rows * cols) by (nonlinear_arith)
        requires
            0 <= r < rows,
            0 <= c < cols,
    ;
}

/// A game: the board, a seeded random source, the cumulative score and the
/// score delta of the most recent move.
pub struct Game {
    pub rng: StdRng,
    pub grid: Grid<usize>,
    pub rows: usize,
    pub cols: usize,
    pub points: usize,
    pub new_points: usize,
}

impl Game {
    /// The board dimensions are at least 1x1 and agree with the grid.
    pub open spec fn wf(self) -> bool {
        &&& 1 <= self.rows
        &&& 1 <= self.cols
        &&& self.rows as int * self.cols as int <= usize::MAX
        &&& grid_rows(self.grid) == self.rows as int
        &&& grid_cols(self.grid) == self.cols as int
        &&& grid_seq(self.grid).len() == self.rows as int * self.cols as int
    }

    /// The flat row-major contents of the board.
    pub open spec fn board(self) -> Seq<usize> {
        grid_seq(self.grid)
    }

    /// A fresh game: a zeroed width x height board and zero score. Drawing
    /// no seed leaves the random source seeded from outside entropy.
    pub fn new(width: usize, height: usize, seed: Option<u64>) -> (g: Game)
        requires
            1 <= width,
            1 <= height,
            width * height <= usize::MAX,
        ensures
            g.wf(),
            g.cols == width,
            g.rows == height,
            g.points == 0,
            g.new_points == 0,
            g.board() == zero_pad(height as int * width as int),
    {
        let rng = match seed {
            Some(s) => rng_from_seed(s),
            None => rng_from_seed(random_seed()),
        };
        let grid = grid_new(height, width);
        proof {
            assert(zero_pad(height as int * width as int) =~= Seq::new(
                (height * width) as nat,
                |i: int| 0usize,
            ));
        }
        Game { rng, grid, rows: height, cols: width, points: 0, new_points: 0 }
    }

    /// A fresh game where a degenerate size is rejected instead of assumed
    /// away: None exactly when a dimension is zero or the cell count does
    /// not fit the machine.
    pub fn try_new(width: usize, height: usize, seed: Option<u64>) -> (r: Option<Game>)
        ensures
            r is Some <==> (1 <= width && 1 <= height && width * height <= usize::MAX),
            r matches Some(g) ==> {
                &&& g.wf()
                &&& g.cols == width
                &&& g.rows == height
                &&& g.points == 0
                &&& g.new_points == 0
                &&& g.board() == zero_pad(height as int * width as int)
            },
    {
        if width >= 1 && height >= 1 && width.checked_mul(height).is_some() {
            Some(Game::new(width, height, seed))
        } else {
            None
        }
    }

    /// A fresh 4x4 game seeded with the given seed, so that its play is
    /// exactly reproducible.
    pub fn from_seed(seed: u64) -> (g: Game)
        ensures
            g.wf(),
            g.cols == 4,
            g.rows == 4,
            g.points == 0,
            g.new_points == 0,
            g.board() == zero_pad(16),
    {
        Game::new(4, 4, Some(seed))
    }

    /// The width of the board, in columns.
    pub fn width(&self) -> (w: usize)
        ensures
            w == self.cols,
    {
        self.cols
    }

    /// The height of the board, in rows.
    pub fn height(&self) -> (h: usize)
        ensures
            h == self.rows,
    {
        self.rows
    }

    /// The value of one cell.
    pub fn get_cell(&self, row: usize, col: usize) -> (v: usize)
        requires
            self.wf(),
            row < self.rows,
            col < self.cols,
        ensures
            v == cell_at(self.board(), self.cols as int, row as int, col as int),
    {
        grid_get(&self.grid, row, col)
    }

    /// Writes one cell, leaving the rest of the game alone.
    pub fn set_cell(&mut self, row: usize, col: usize, value: usize)
        requires
            old(self).wf(),
            row < old(self).rows,
            col < old(self).cols,
        ensures
            final(self).wf(),
            final(self).rows == old(self).rows,
            final(self).cols == old(self).cols,
            final(self).points == old(self).points,
            final(self).new_points == old(self).new_points,
            final(self).rng == old(self).rng,
            final(self).board() == old(self).board().update(
                row as int * old(self).cols as int + col as int,
                value,
            ),
    {
        proof {
            lemma_flat_index_bound(
                row as int,
                col as int,
                self.rows as int,
                self.cols as int,
            );
        }
        grid_set(&mut self.grid, row, col, value);
    }

    /// True exactly when no move can change the board: every cell holds a
    /// tile and no two 4-adjacent cells hold equal values.
    pub fn is_game_over(&self) -> (over: bool)
        requires
            self.wf(),
        ensures
            over == spec_game_over(self.board(), self.rows as int, self.cols as int),
    {
        !self.has_empty_cell() && !self.has_adjacent_pair()
    }

    fn has_empty_cell(&self) -> (found: bool)
        requires
            self.wf(),
        ensures
            found == !board_full(self.board()),
    {
        let s = Ghost(self.board());
        let cols = self.cols;
        let mut r: usize = 0;
        while r < self.rows
            invariant
                self.wf(),
                s@ == self.board(),
                cols == self.cols,
                r <= self.rows,
                forall|i: int| 0 <= i < r as int * cols as int ==> s@[i] != 0,
            decreases self.rows - r,
        {
            let mut c: usize = 0;
            while c < cols
                invariant
                    self.wf(),
                    s@ == self.board(),
                    cols == self.cols,
                    r < self.rows,
                    c <= cols,
                    forall|i: int| 0 <= i < r as int * cols as int + c as int ==> s@[i] != 0,
                decreases cols - c,
            {
                proof {
                    vstd::arithmetic::mul::lemma_mul_inequality(
                        r as int + 1,
                        self.rows as int,
                        cols as int,
                    );
                    assert((r as int + 1) * cols as int == r as int * cols as int + cols as int)
                        by (nonlinear_arith);
                }
                if grid_get(&self.grid, r, c) == 0 {
                    assert(s@[r as int * cols as int + c as int] == 0);
                    return true;
                }
                c += 1;
            }
            proof {
                assert((r as int + 1) * cols as int == r as int * cols as int + cols as int)
                    by (nonlinear_arith);
            }
            r += 1;
        }
        proof {
            assert(self.rows as int * cols as int == s@.len());
        }
        false
    }

    fn has_adjacent_pair(&self) -> (found: bool)
        requires
            self.wf(),
        ensures
            found == !no_adjacent_equal(self.board(), self.rows as int, self.cols as int),
    {
        let s = Ghost(self.board());
        let rows = self.rows;
        let cols = self.cols;
        let mut r: usize = 0;
        while r < rows
            invariant
                self.wf(),
                s@ == self.board(),
                rows == self.rows,
                cols == self.cols,
                r <= rows,
                forall|rr: int, cc: int|
                    0 <= rr < r && 0 <= cc < cols as int - 1 ==> #[trigger] cell_at(
                        s@,
                        cols as int,
                        rr,
                        cc,
                    ) != cell_at(s@, cols as int, rr, cc + 1),
                forall|rr: int, cc: int|
                    0 <= rr < r && rr < rows as int - 1 && 0 <= cc < cols as int ==> #[trigger]
                    cell_at(s@, cols as int, rr, cc) != cell_at(s@, cols as int, rr + 1, cc),
            decreases rows - r,
        {
            let mut c: usize = 0;
            while c < cols
                invariant
                    self.wf(),
                    s@ == self.board(),
                    rows == self.rows,
                    cols == self.cols,
                    r < rows,
                    c <= cols,
                    forall|rr: int, cc: int|
                        0 <= rr < r && 0 <= cc < cols as int - 1 ==> #[trigger] cell_at(
                            s@,
                            cols as int,
                            rr,
                            cc,
                        ) != cell_at(s@, cols as int, rr, cc + 1),
                    forall|rr: int, cc: int|
                        0 <= rr < r && rr < rows as int - 1 && 0 <= cc < cols as int
                            ==> #[trigger] cell_at(s@, cols as int, rr, cc) != cell_at(
                            s@,
                            cols as int,
                            rr + 1,
                            cc,
                        ),
                    forall|cc: int|
                        0 <= cc < c && cc < cols as int - 1 ==> #[trigger] cell_at(
                            s@,
                            cols as int,
                            r as int,
                            cc,
                        ) != cell_at(s@, cols as int, r as int, cc + 1),
                    forall|cc: int|
                        0 <= cc < c && r < rows as int - 1 ==> #[trigger] cell_at(
                            s@,
                            cols as int,
                            r as int,
                            cc,
                        ) != cell_at(s@, cols as int, r as int + 1, cc),
                decreases cols - c,
            {
                proof {
                    vstd::arithmetic::mul::lemma_mul_inequality(
                        r as int + 1,
                        rows as int,
                        cols as int,
                    );
                    assert((r as int + 1) * cols as int == r as int * cols as int + cols as int)
                        by (nonlinear_arith);
                    lemma_flat_index_bound(r as int, c as int, rows as int, cols as int);
                    if r as int + 1 < rows as int {
                        lemma_flat_index_bound(
                            r as int + 1,
                            c as int,
                            rows as int,
                            cols as int,
                        );
                    }
                }
                let here = grid_get(&self.grid, r, c);
                if c + 1 < cols {
                    let right = grid_get(&self.grid, r, c + 1);
                    if here == right {
                        assert(cell_at(s@, cols as int, r as int, c as int) == cell_at(
                            s@,
                            cols as int,
                            r as int,
                            c as int + 1,
                        ));
                        return true;
                    }
                }
                if r + 1 < rows {
                    let below = grid_get(&self.grid, r + 1, c);
                    if here == below {
                        assert(cell_at(s@, cols as int, r as int, c as int) == cell_at(
                            s@,
                            cols as int,
                            r as int + 1,
                            c as int,
                        ));
                        return true;
                    }
                }
                c += 1;
            }
            r += 1;
        }
        false
    }

    /// Picks an empty cell uniformly at random and fills it with 2 (nine
    /// times out of ten) or 4 (once out of ten). A full board is left
    /// byte-for-byte unchanged, and no other cell ever changes.
    pub fn add_random_tile(&mut self)
        requires
            old(self).wf(),
        ensures
            final(self).wf(),
            final(self).rows == old(self).rows,
            final(self).cols == old(self).cols,
            final(self).points == old(self).points,
            final(self).new_points == old(self).new_points,
            board_full(old(self).board()) ==> final(self).board() == old(self).board(),
            !board_full(old(self).board()) ==> exists|i: int|
                {
                    &&& 0 <= i < old(self).board().len()
                    &&& old(self).board()[i] == 0
                    &&& (final(self).board() == old(self).board().update(i, 2usize)
                        || final(self).board() == old(self).board().update(i, 4usize))
                },
    {
        let rows = self.rows;
        let cols = self.cols;
        let ghost orig = self.board();
        let mut empties: Vec<usize> = Vec::new();
        let mut r: usize = 0;
        while r < rows
            invariant
                self.wf(),
                rows == self.rows,
                cols == self.cols,
                orig == self.board(),
                r <= rows,
                forall|k: int|
                    0 <= k < empties@.len() ==> #[trigger] empties@[k] < orig.len()
                        && orig[empties@[k] as int] == 0,
                forall|i: int|
                    0 <= i < r as int * cols as int && #[trigger] orig[i] == 0
                        ==> empties@.contains(i as usize),
            decreases rows - r,
        {
            let mut c: usize = 0;
            while c < cols
                invariant
                    self.wf(),
                    rows == self.rows,
                    cols == self.cols,
                    orig == self.board(),
                    r < rows,
                    c <= cols,
                    forall|k: int|
                        0 <= k < empties@.len() ==> #[trigger] empties@[k] < orig.len()
                            && orig[empties@[k] as int] == 0,
                    forall|i: int|
                        0 <= i < r as int * cols as int + c as int && #[trigger] orig[i] == 0
                            ==> empties@.contains(i as usize),
                decreases cols - c,
            {
                proof {
                    lemma_flat_index_bound(r as int, c as int, rows as int, cols as int);
                }
                let v = grid_get(&self.grid, r, c);
                if v == 0 {
                    let idx = r * cols + c;
                    let ghost pre = empties@;
                    empties.push(idx);
                    proof {
                        assert(empties@ == pre.push(idx));
                        assert forall|x: usize| pre.contains(x) implies #[trigger] empties@.contains(
                            x,
                        ) by {
                            let k = choose|k: int| 0 <= k < pre.len() && pre[k] == x;
                            assert(empties@[k] == x);
                        }
                        assert(empties@[empties@.len() - 1] == idx);
                        assert(empties@.contains(idx));
                        assert(idx as int == r as int * cols as int + c as int);
                    }
                } else {
                    assert(orig[r as int * cols as int + c as int] != 0);
                }
                c += 1;
            }
            proof {
                assert((r as int + 1) * cols as int == r as int * cols as int + cols as int)
                    by (nonlinear_arith);
            }
            r += 1;
        }
        if empties.len() == 0 {
            proof {
                assert(board_full(orig)) by {
                    assert(forall|i: int|
                        0 <= i < orig.len() && #[trigger] orig[i] == 0 ==> empties@.contains(
                            i as usize,
                        ));
                }
            }
            return ;
        }
        let t = rng_below(&mut self.rng, empties.len());
        let idx = empties[t];
        let four = rng_one_in_ten(&mut self.rng);
        let value: usize = if four {
            4
        } else {
            2
        };
        let rr = idx / cols;
        let cc = idx % cols;
        proof {
            vstd::arithmetic::div_mod::lemma_fundamental_div_mod(idx as int, cols as int);
            vstd::arithmetic::div_mod::lemma_mod_bound(idx as int, cols as int);
            assert(rr as int == idx as int / cols as int);
            assert(cc as int == idx as int % cols as int);
            assert(idx as int == cols as int * (idx as int / cols as int) + idx as int % cols
                as int);
            vstd::arithmetic::mul::lemma_mul_is_commutative(rr as int, cols as int);
            assert(rr as int * cols as int + cc as int == idx as int);
            let ri = rr as int;
            let ci = cc as int;
            let ii = idx as int;
            let rowsi = rows as int;
            let colsi = cols as int;
            assert(ri < rowsi) by (nonlinear_arith)
                requires
                    colsi * ri + ci == ii,
                    0 <= ci,
                    ci < colsi,
                    ii < rowsi * colsi,
                    0 <= ri,
            ;
        }
        grid_set(&mut self.grid, rr, cc, value);
        proof {
            assert(!board_full(orig)) by {
                assert(orig[idx as int] == 0);
            }
            assert(final(self).board() == orig.update(idx as int, value));
        }
    }

    fn read_row(&self, r: usize) -> (line: Vec<usize>)
        requires
            self.wf(),
            r < self.rows,
        ensures
            line@ == row_seq(self.board(), self.cols as int, r as int),
    {
        let cols = self.cols;
        let mut line: Vec<usize> = Vec::new();
        let mut c: usize = 0;
        while c < cols
            invariant
                self.wf(),
                cols == self.cols,
                r < self.rows,
                c <= cols,
                line@.len() == c as int,
                forall|j: int|
                    0 <= j < c ==> line@[j] == self.board()[r as int * cols as int + j],
            decreases cols - c,
        {
            proof {
                lemma_flat_index_bound(r as int, c as int, self.rows as int, cols as int);
            }
            line.push(grid_get(&self.grid, r, c));
            c += 1;
        }
        proof {
            lemma_flat_index_bound(r as int, 0, self.rows as int, cols as int);
            vstd::arithmetic::mul::lemma_mul_inequality(
                r as int + 1,
                self.rows as int,
                cols as int,
            );
            assert((r as int + 1) * cols as int == r as int * cols as int + cols as int)
                by (nonlinear_arith);
            assert(line@ =~= row_seq(self.board(), cols as int, r as int));
        }
        line
    }

    fn write_row(&mut self, r: usize, line: &Vec<usize>)
        requires
            old(self).wf(),
            r < old(self).rows,
            line@.len() == old(self).cols as int,
        ensures
            final(self).wf(),
            final(self).rows == old(self).rows,
            final(self).cols == old(self).cols,
            final(self).points == old(self).points,
            final(self).new_points == old(self).new_points,
            final(self).rng == old(self).rng,
            row_seq(final(self).board(), old(self).cols as int, r as int) == line@,
            forall|t: int|
                0 <= t < old(self).rows && t != r ==> row_seq(
                    final(self).board(),
                    old(self).cols as int,
                    t,
                ) == row_seq(old(self).board(), old(self).cols as int, t),
    {
        let rows = self.rows;
        let cols = self.cols;
        let ghost orig = self.board();
        let ghost orig_points = self.points;
        let ghost orig_new_points = self.new_points;
        let ghost orig_rng = self.rng;
        let mut c: usize = 0;
        while c < cols
            invariant
                self.wf(),
                rows == self.rows,
                cols == self.cols,
                self.points == orig_points,
                self.new_points == orig_new_points,
                self.rng == orig_rng,
                r < rows,
                c <= cols,
                line@.len() == cols as int,
                forall|rr: int, cc: int|
                    0 <= rr < rows as int && 0 <= cc < cols as int && rr != r as int
                        ==> #[trigger] cell_at(self.board(), cols as int, rr, cc) == cell_at(
                        orig,
                        cols as int,
                        rr,
                        cc,
                    ),
                forall|cc: int|
                    0 <= cc < c as int ==> #[trigger] cell_at(self.board(), cols as int, r as int, cc)
                        == line@[cc],
                forall|cc: int|
                    c as int <= cc < cols as int ==> #[trigger] cell_at(
                        self.board(),
                        cols as int,
                        r as int,
                        cc,
                    ) == cell_at(orig, cols as int, r as int, cc),
            decreases cols - c,
        {
            proof {
                lemma_flat_index_bound(r as int, c as int, rows as int, cols as int);
            }
            let ghost before = self.board();
            grid_set(&mut self.grid, r, c, line[c]);
            proof {
                assert(self.board() == before.update(
                    r as int * cols as int + c as int,
                    line@[c as int],
                ));
                assert forall|rr: int, cc: int|
                    0 <= rr < rows as int && 0 <= cc < cols as int && !(rr == r as int && cc
                        == c as int) implies #[trigger] cell_at(self.board(), cols as int, rr, cc)
                    == cell_at(before, cols as int, rr, cc) by {
                    lemma_flat_index_bound(rr, cc, rows as int, cols as int);
                    if rr * cols as int + cc == r as int * cols as int + c as int {
                        lemma_flat_index_injective(rr, cc, r as int, c as int, cols as int);
                    }
                }
                assert(cell_at(self.board(), cols as int, r as int, c as int) == line@[c as int]);
            }
            c += 1;
        }
        proof {
            lemma_row_extent(r as int, rows as int, cols as int);
            assert(self.board().len() == rows as int * cols as int);
            assert(row_seq(self.board(), cols as int, r as int).len() == cols as int);
            assert(row_seq(self.board(), cols as int, r as int) =~= line@) by {
                assert forall|j: int| 0 <= j < cols as int implies row_seq(
                    self.board(),
                    cols as int,
                    r as int,
                )[j] == line@[j] by {
                    assert(row_seq(self.board(), cols as int, r as int)[j] == cell_at(
                        self.board(),
                        cols as int,
                        r as int,
                        j,
                    ));
                }
            }
            assert forall|t: int| 0 <= t < rows as int && t != r as int implies row_seq(
                self.board(),
                cols as int,
                t,
            ) == row_seq(orig, cols as int, t) by {
                lemma_row_extent(t, rows as int, cols as int);
                assert(self.board().len() == rows as int * cols as int);
                assert(orig.len() == rows as int * cols as int);
                assert(row_seq(self.board(), cols as int, t).len() == cols as int);
                assert(row_seq(orig, cols as int, t).len() == cols as int);
                assert(row_seq(self.board(), cols as int, t) =~= row_seq(orig, cols as int, t))
                    by {
                    assert forall|j: int| 0 <= j < cols as int implies row_seq(
                        self.board(),
                        cols as int,
                        t,
                    )[j] == row_seq(orig, cols as int, t)[j] by {
                        assert(row_seq(self.board(), cols as int, t)[j] == cell_at(
                            self.board(),
                            cols as int,
                            t,
                            j,
                        ));
                        assert(row_seq(orig, cols as int, t)[j] == cell_at(orig, cols as int, t, j));
                        assert(cell_at(self.board(), cols as int, t, j) == cell_at(
                            orig,
                            cols as int,
                            t,
                            j,
                        ));
                    }
                }
            }
        }
    }

    /// Merges every row of the board in the given direction, accumulating
    /// the scored points into the cumulative score and the move delta.
    fn shift_rows(&mut self, dir: Placement)
        requires
            old(self).wf(),
            old(self).points + rows_sum(
                old(self).board(),
                old(self).cols as int,
                old(self).rows as int,
            ) <= usize::MAX,
        ensures
            final(self).wf(),
            final(self).rows == old(self).rows,
            final(self).cols == old(self).cols,
            final(self).rng == old(self).rng,
            forall|t: int|
                0 <= t < old(self).rows ==> row_seq(
                    final(self).board(),
                    old(self).cols as int,
                    t,
                ) == merge_spec(row_seq(old(self).board(), old(self).cols as int, t), dir),
            final(self).new_points == rows_points(
                old(self).board(),
                old(self).cols as int,
                old(self).rows as int,
                dir,
            ),
            final(self).points == old(self).points + final(self).new_points,
    {
        self.new_points = 0;
        let rows = self.rows;
        let cols = self.cols;
        let ghost orig = self.board();
        let ghost orig_points = self.points;
        let ghost orig_rng = self.rng;
        let mut r: usize = 0;
        while r < rows
            invariant
                self.wf(),
                rows == self.rows,
                cols == self.cols,
                self.rng == orig_rng,
                r <= rows,
                orig.len() == rows as int * cols as int,
                orig_points >= 0,
                orig_points + rows_sum(orig, cols as int, rows as int) <= usize::MAX,
                forall|t: int|
                    0 <= t < r as int ==> row_seq(self.board(), cols as int, t) == merge_spec(
                        row_seq(orig, cols as int, t),
                        dir,
                    ),
                forall|t: int|
                    r as int <= t < rows as int ==> row_seq(self.board(), cols as int, t)
                        == row_seq(orig, cols as int, t),
                self.new_points == rows_points(orig, cols as int, r as int, dir),
                self.points == orig_points + self.new_points,
            decreases rows - r,
        {
            let line = self.read_row(r);
            proof {
                assert(line@ == row_seq(orig, cols as int, r as int));
                lemma_rows_sum_mono(orig, cols as int, r as int + 1, rows as int);
                lemma_rows_sum_nonneg(orig, cols as int, r as int);
                assert(rows_sum(orig, cols as int, r as int + 1) == rows_sum(
                    orig,
                    cols as int,
                    r as int,
                ) + seq_sum(row_seq(orig, cols as int, r as int)));
            }
            let (merged, pts) = merge_2048(&line, dir);
            proof {
                lemma_rows_points_bounds(orig, cols as int, r as int, dir);
                crate::lemma_points_spec_bounds(line@, dir);
                assert(rows_points(orig, cols as int, r as int + 1, dir) == rows_points(
                    orig,
                    cols as int,
                    r as int,
                    dir,
                ) + points_spec(row_seq(orig, cols as int, r as int), dir));
                lemma_rows_points_bounds(orig, cols as int, r as int + 1, dir);
                lemma_rows_sum_mono(orig, cols as int, r as int + 1, rows as int);
            }
            proof {
                lemma_row_extent(r as int, rows as int, cols as int);
                assert(row_seq(orig, cols as int, r as int).len() == cols as int);
            }
            let ghost mid = self.board();
            self.write_row(r, &merged);
            self.points = self.points + pts;
            self.new_points = self.new_points + pts;
            proof {
                assert(row_seq(self.board(), cols as int, r as int) == merge_spec(
                    row_seq(orig, cols as int, r as int),
                    dir,
                ));
                assert(forall|t: int|
                    0 <= t < rows as int && t != r as int ==> #[trigger] row_seq(
                        self.board(),
                        cols as int,
                        t,
                    ) == row_seq(mid, cols as int, t));
            }
            r += 1;
        }
    }

    /// Shifts every row toward the start of the row: the user-facing move
    /// to the left.
    pub fn shift_left(&mut self)
        requires
            old(self).wf(),
            old(self).points + rows_sum(
                old(self).board(),
                old(self).cols as int,
                old(self).rows as int,
            ) <= usize::MAX,
        ensures
            final(self).wf(),
            final(self).rows == old(self).rows,
            final(self).cols == old(self).cols,
            final(self).rng == old(self).rng,
            forall|t: int|
                0 <= t < old(self).rows ==> row_seq(
                    final(self).board(),
                    old(self).cols as int,
                    t,
                ) == merge_spec(
                    row_seq(old(self).board(), old(self).cols as int, t),
                    Placement::Start,
                ),
            final(self).new_points == rows_points(
                old(self).board(),
                old(self).cols as int,
                old(self).rows as int,
                Placement::Start,
            ),
            final(self).points == old(self).points + final(self).new_points,
    {
        self.shift_rows(Placement::Start)
    }

    /// Shifts every row toward the end of the row: the user-facing move to
    /// the right.
    pub fn shift_right(&mut self)
        requires
            old(self).wf(),
            old(self).points + rows_sum(
                old(self).board(),
                old(self).cols as int,
                old(self).rows as int,
            ) <= usize::MAX,
        ensures
            final(self).wf(),
            final(self).rows == old(self).rows,
            final(self).cols == old(self).cols,
            final(self).rng == old(self).rng,
            forall|t: int|
                0 <= t < old(self).rows ==> row_seq(
                    final(self).board(),
                    old(self).cols as int,
                    t,
                ) == merge_spec(
                    row_seq(old(self).board(), old(self).cols as int, t),
                    Placement::End,
                ),
            final(self).new_points == rows_points(
                old(self).board(),
                old(self).cols as int,
                old(self).rows as int,
                Placement::End,
            ),
            final(self).points == old(self).points + final(self).new_points,
    {
        self.shift_rows(Placement::End)
    }
    fn read_col(&self, c: usize) -> (line: Vec<usize>)
        requires
            self.wf(),
            c < self.cols,
        ensures
            line@ == col_seq(self.board(), self.rows as int, self.cols as int, c as int),
    {
        let rows = self.rows;
        let cols = self.cols;
        let mut line: Vec<usize> = Vec::new();
        let mut i: usize = 0;
        while i < rows
            invariant
                self.wf(),
                rows == self.rows,
                cols == self.cols,
                c < cols,
                i <= rows,
                line@.len() == i as int,
                forall|j: int|
                    0 <= j < i ==> line@[j] == self.board()[j * cols as int + c as int],
            decreases rows - i,
        {
            proof {
                lemma_flat_index_bound(i as int, c as int, rows as int, cols as int);
            }
            line.push(grid_get(&self.grid, i, c));
            i += 1;
        }
        proof {
            assert(line@ =~= col_seq(self.board(), rows as int, cols as int, c as int));
        }
        line
    }

    fn write_col(&mut self, c: usize, line: &Vec<usize>)
        requires
            old(self).wf(),
            c < old(self).cols,
            line@.len() == old(self).rows as int,
        ensures
            final(self).wf(),
            final(self).rows == old(self).rows,
            final(self).cols == old(self).cols,
            final(self).points == old(self).points,
            final(self).new_points == old(self).new_points,
            final(self).rng == old(self).rng,
            col_seq(
                final(self).board(),
                old(self).rows as int,
                old(self).cols as int,
                c as int,
            ) == line@,
            forall|t: int|
                0 <= t < old(self).cols && t != c ==> col_seq(
                    final(self).board(),
                    old(self).rows as int,
                    old(self).cols as int,
                    t,
                ) == col_seq(old(self).board(), old(self).rows as int, old(self).cols as int, t),
    {
        let rows = self.rows;
        let cols = self.cols;
        let ghost orig = self.board();
        let ghost orig_points = self.points;
        let ghost orig_new_points = self.new_points;
        let ghost orig_rng = self.rng;
        let mut i: usize = 0;
        while i < rows
            invariant
                self.wf(),
                rows == self.rows,
                cols == self.cols,
                self.points == orig_points,
                self.new_points == orig_new_points,
                self.rng == orig_rng,
                c < cols,
                i <= rows,
                line@.len() == rows as int,
                forall|rr: int, cc: int|
                    0 <= rr < rows as int && 0 <= cc < cols as int && cc != c as int
                        ==> #[trigger] cell_at(self.board(), cols as int, rr, cc) == cell_at(
                        orig,
                        cols as int,
                        rr,
                        cc,
                    ),
                forall|rr: int|
                    0 <= rr < i as int ==> #[trigger] cell_at(
                        self.board(),
                        cols as int,
                        rr,
                        c as int,
                    ) == line@[rr],
                forall|rr: int|
                    i as int <= rr < rows as int ==> #[trigger] cell_at(
                        self.board(),
                        cols as int,
                        rr,
                        c as int,
                    ) == cell_at(orig, cols as int, rr, c as int),
            decreases rows - i,
        {
            proof {
                lemma_flat_index_bound(i as int, c as int, rows as int, cols as int);
            }
            let ghost before = self.board();
            grid_set(&mut self.grid, i, c, line[i]);
            proof {
                assert(self.board() == before.update(
                    i as int * cols as int + c as int,
                    line@[i as int],
                ));
                assert forall|rr: int, cc: int|
                    0 <= rr < rows as int && 0 <= cc < cols as int && !(rr == i as int && cc
                        == c as int) implies #[trigger] cell_at(self.board(), cols as int, rr, cc)
                    == cell_at(before, cols as int, rr, cc) by {
                    lemma_flat_index_bound(rr, cc, rows as int, cols as int);
                    if rr * cols as int + cc == i as int * cols as int + c as int {
                        lemma_flat_index_injective(rr, cc, i as int, c as int, cols as int);
                    }
                }
                assert(cell_at(self.board(), cols as int, i as int, c as int) == line@[i as int]);
            }
            i += 1;
        }
        proof {
            assert(col_seq(self.board(), rows as int, cols as int, c as int) =~= line@) by {
                assert forall|j: int| 0 <= j < rows as int implies col_seq(
                    self.board(),
                    rows as int,
                    cols as int,
                    c as int,
                )[j] == line@[j] by {
                    assert(col_seq(self.board(), rows as int, cols as int, c as int)[j] == cell_at(
                        self.board(),
                        cols as int,
                        j,
                        c as int,
                    ));
                }
            }
            assert forall|t: int| 0 <= t < cols as int && t != c as int implies col_seq(
                self.board(),
                rows as int,
                cols as int,
                t,
            ) == col_seq(orig, rows as int, cols as int, t) by {
                assert(col_seq(self.board(), rows as int, cols as int, t) =~= col_seq(
                    orig,
                    rows as int,
                    cols as int,
                    t,
                )) by {
                    assert forall|j: int| 0 <= j < rows as int implies col_seq(
                        self.board(),
                        rows as int,
                        cols as int,
                        t,
                    )[j] == col_seq(orig, rows as int, cols as int, t)[j] by {
                        assert(col_seq(self.board(), rows as int, cols as int, t)[j] == cell_at(
                            self.board(),
                            cols as int,
                            j,
                            t,
                        ));
                        assert(col_seq(orig, rows as int, cols as int, t)[j] == cell_at(
                            orig,
                            cols as int,
                            j,
                            t,
                        ));
                        assert(cell_at(self.board(), cols as int, j, t) == cell_at(
                            orig,
                            cols as int,
                            j,
                            t,
                        ));
                    }
                }
            }
        }
    }

    /// Merges every column of the board in the given direction, accumulating
    /// the scored points into the cumulative score and the move delta.
    fn shift_cols(&mut self, dir: Placement)
        requires
            old(self).wf(),
            old(self).points + cols_sum(
                old(self).board(),
                old(self).rows as int,
                old(self).cols as int,
                old(self).cols as int,
            ) <= usize::MAX,
        ensures
            final(self).wf(),
            final(self).rows == old(self).rows,
            final(self).cols == old(self).cols,
            final(self).rng == old(self).rng,
            forall|t: int|
                0 <= t < old(self).cols ==> col_seq(
                    final(self).board(),
                    old(self).rows as int,
                    old(self).cols as int,
                    t,
                ) == merge_spec(
                    col_seq(old(self).board(), old(self).rows as int, old(self).cols as int, t),
                    dir,
                ),
            final(self).new_points == cols_points(
                old(self).board(),
                old(self).rows as int,
                old(self).cols as int,
                old(self).cols as int,
                dir,
            ),
            final(self).points == old(self).points + final(self).new_points,
    {
        self.new_points = 0;
        let rows = self.rows;
        let cols = self.cols;
        let ghost orig = self.board();
        let ghost orig_points = self.points;
        let ghost orig_rng = self.rng;
        let mut c: usize = 0;
        while c < cols
            invariant
                self.wf(),
                rows == self.rows,
                cols == self.cols,
                self.rng == orig_rng,
                c <= cols,
                orig.len() == rows as int * cols as int,
                orig_points >= 0,
                orig_points + cols_sum(orig, rows as int, cols as int, cols as int) <= usize::MAX,
                forall|t: int|
                    0 <= t < c as int ==> col_seq(self.board(), rows as int, cols as int, t)
                        == merge_spec(col_seq(orig, rows as int, cols as int, t), dir),
                forall|t: int|
                    c as int <= t < cols as int ==> col_seq(self.board(), rows as int, cols as int, t)
                        == col_seq(orig, rows as int, cols as int, t),
                self.new_points == cols_points(orig, rows as int, cols as int, c as int, dir),
                self.points == orig_points + self.new_points,
            decreases cols - c,
        {
            let line = self.read_col(c);
            proof {
                assert(line@ == col_seq(orig, rows as int, cols as int, c as int));
                lemma_cols_sum_mono(orig, rows as int, cols as int, c as int + 1, cols as int);
                lemma_cols_sum_nonneg(orig, rows as int, cols as int, c as int);
                assert(cols_sum(orig, rows as int, cols as int, c as int + 1) == cols_sum(
                    orig,
                    rows as int,
                    cols as int,
                    c as int,
                ) + seq_sum(col_seq(orig, rows as int, cols as int, c as int)));
            }
            let (merged, pts) = merge_2048(&line, dir);
            proof {
                lemma_cols_points_bounds(orig, rows as int, cols as int, c as int, dir);
                crate::lemma_points_spec_bounds(line@, dir);
                assert(cols_points(orig, rows as int, cols as int, c as int + 1, dir)
                    == cols_points(orig, rows as int, cols as int, c as int, dir) + points_spec(
                    col_seq(orig, rows as int, cols as int, c as int),
                    dir,
                ));
                lemma_cols_points_bounds(orig, rows as int, cols as int, c as int + 1, dir);
                lemma_cols_sum_mono(orig, rows as int, cols as int, c as int + 1, cols as int);
                assert(col_seq(orig, rows as int, cols as int, c as int).len() == rows as int);
            }
            let ghost mid = self.board();
            self.write_col(c, &merged);
            self.points = self.points + pts;
            self.new_points = self.new_points + pts;
            proof {
                assert(col_seq(self.board(), rows as int, cols as int, c as int) == merge_spec(
                    col_seq(orig, rows as int, cols as int, c as int),
                    dir,
                ));
                assert(forall|t: int|
                    0 <= t < cols as int && t != c as int ==> #[trigger] col_seq(
                        self.board(),
                        rows as int,
                        cols as int,
                        t,
                    ) == col_seq(mid, rows as int, cols as int, t));
            }
            c += 1;
        }
    }

    /// Shifts every column toward the top of the board: the user-facing
    /// upward move.
    pub fn shift_top(&mut self)
        requires
            old(self).wf(),
            old(self).points + cols_sum(
                old(self).board(),
                old(self).rows as int,
                old(self).cols as int,
                old(self).cols as int,
            ) <= usize::MAX,
        ensures
            final(self).wf(),
            final(self).rows == old(self).rows,
            final(self).cols == old(self).cols,
            final(self).rng == old(self).rng,
            forall|t: int|
                0 <= t < old(self).cols ==> col_seq(
                    final(self).board(),
                    old(self).rows as int,
                    old(self).cols as int,
                    t,
                ) == merge_spec(
                    col_seq(old(self).board(), old(self).rows as int, old(self).cols as int, t),
                    Placement::Start,
                ),
            final(self).new_points == cols_points(
                old(self).board(),
                old(self).rows as int,
                old(self).cols as int,
                old(self).cols as int,
                Placement::Start,
            ),
            final(self).points == old(self).points + final(self).new_points,
    {
        self.shift_cols(Placement::Start)
    }

    /// Shifts every column toward the bottom of the board: the user-facing
    /// downward move.
    pub fn shift_bottom(&mut self)
        requires
            old(self).wf(),
            old(self).points + cols_sum(
                old(self).board(),
                old(self).rows as int,
                old(self).cols as int,
                old(self).cols as int,
            ) <= usize::MAX,
        ensures
            final(self).wf(),
            final(self).rows == old(self).rows,
            final(self).cols == old(self).cols,
            final(self).rng == old(self).rng,
            forall|t: int|
                0 <= t < old(self).cols ==> col_seq(
                    final(self).board(),
                    old(self).rows as int,
                    old(self).cols as int,
                    t,
                ) == merge_spec(
                    col_seq(old(self).board(), old(self).rows as int, old(self).cols as int, t),
                    Placement::End,
                ),
            final(self).new_points == cols_points(
                old(self).board(),
                old(self).rows as int,
                old(self).cols as int,
                old(self).cols as int,
                Placement::End,
            ),
            final(self).points == old(self).points + final(self).new_points,
    {
        self.shift_cols(Placement::End)
    }

}

impl Default for Game {
    /// A fresh 4x4 game seeded from outside entropy.
    fn default() -> (g: Game)
        ensures
            g.wf(),
            g.cols == 4,
            g.rows == 4,
            g.points == 0,
            g.new_points == 0,
            g.board() == zero_pad(16),
    {
        Game::new(4, 4, None)
    }
}

proof fn lemma_flat_index_injective(r1: int, c1: int, r2: int, c2: int, cols: int)
    requires
        0 <= r1,
        0 <= r2,
        0 <= c1 < cols,
        0 <= c2 < cols,
        r1 * cols + c1 == r2 * cols + c2,
    ensures
        r1 == r2,
        c1 == c2,
{
    assert(r1 == r2 && c1 == c2) by (nonlinear_arith)
        requires
            0 <= r1,
            0 <= r2,
            0 <= c1,
            c1 < cols,
            0 <= c2,
            c2 < cols,
            r1 * cols + c1 == r2 * cols + c2,
    ;
}

proof fn lemma_row_extent(r: int, rows: int, cols: int)
    requires
        0 <= r < rows,
        1 <= cols,
    ensures
        0 <= r * cols,
        r * cols + cols <= rows * cols,
{
    assert(0 <= r * cols && r * cols + cols <= rows * cols) by (nonlinear_arith)
        requires
            0 <= r < rows,
            1 <= cols,
    ;
}

proof fn lemma_rows_sum_nonneg(s: Seq<usize>, cols: int, r: int)
    requires
        0 <= r,
    ensures
        rows_sum(s, cols, r) >= 0,
    decreases r,
{
    if r > 0 {
        lemma_rows_sum_nonneg(s, cols, r - 1);
        crate::lemma_seq_sum_nonneg(row_seq(s, cols, r - 1));
    }
}

proof fn lemma_rows_sum_mono(s: Seq<usize>, cols: int, a: int, b: int)
    requires
        0 <= a <= b,
    ensures
        rows_sum(s, cols, a) <= rows_sum(s, cols, b),
    decreases b,
{
    if a < b {
        lemma_rows_sum_mono(s, cols, a, b - 1);
        crate::lemma_seq_sum_nonneg(row_seq(s, cols, b - 1));
    }
}

proof fn lemma_rows_points_bounds(s: Seq<usize>, cols: int, r: int, dir: Placement)
    requires
        0 <= r,
    ensures
        0 <= rows_points(s, cols, r, dir),
        rows_points(s, cols, r, dir) <= rows_sum(s, cols, r),
    decreases r,
{
    if r > 0 {
        lemma_rows_points_bounds(s, cols, r - 1, dir);
        crate::lemma_points_spec_bounds(row_seq(s, cols, r - 1), dir);
    }
}

proof fn lemma_cols_sum_nonneg(s: Seq<usize>, rows: int, cols: int, c: int)
    requires
        0 <= c,
    ensures
        cols_sum(s, rows, cols, c) >= 0,
    decreases c,
{
    if c > 0 {
        lemma_cols_sum_nonneg(s, rows, cols, c - 1);
        crate::lemma_seq_sum_nonneg(col_seq(s, rows, cols, c - 1));
    }
}

proof fn lemma_cols_sum_mono(s: Seq<usize>, rows: int, cols: int, a: int, b: int)
    requires
        0 <= a <= b,
    ensures
        cols_sum(s, rows, cols, a) <= cols_sum(s, rows, cols, b),
    decreases b,
{
    if a < b {
        lemma_cols_sum_mono(s, rows, cols, a, b - 1);
        crate::lemma_seq_sum_nonneg(col_seq(s, rows, cols, b - 1));
    }
}

proof fn lemma_cols_points_bounds(s: Seq<usize>, rows: int, cols: int, c: int, dir: Placement)
    requires
        0 <= c,
    ensures
        0 <= cols_points(s, rows, cols, c, dir),
        cols_points(s, rows, cols, c, dir) <= cols_sum(s, rows, cols, c),
    decreases c,
{
    if c > 0 {
        lemma_cols_points_bounds(s, rows, cols, c - 1, dir);
        crate::lemma_points_spec_bounds(col_seq(s, rows, cols, c - 1), dir);
    }
}

proof fn lemma_board_index_split(i: int, rows: int, cols: int) -> (rc: (int, int))
    requires
        1 <= cols,
        0 <= i < rows * cols,
    ensures
        rc.0 == i / cols,
        rc.1 == i % cols,
        0 <= rc.0 < rows,
        0 <= rc.1 < cols,
        rc.0 * cols + rc.1 == i,
{
    let r = i / cols;
    let c = i % cols;
    vstd::arithmetic::div_mod::lemma_fundamental_div_mod(i, cols);
    vstd::arithmetic::div_mod::lemma_mod_bound(i, cols);
    vstd::arithmetic::mul::lemma_mul_is_commutative(r, cols);
    assert(0 <= r && r < rows) by (nonlinear_arith)
        requires
            cols * r + c == i,
            0 <= c,
            c < cols,
            0 <= i,
            i < rows * cols,
    ;
    (r, c)
}

/// A row shift writes only merged rows, and merging keeps every cell empty
/// or a tile, so a board of empty cells and tiles stays one.
pub proof fn lemma_row_shift_preserves_tiles(
    before: Seq<usize>,
    after: Seq<usize>,
    rows: int,
    cols: int,
    dir: Placement,
)
    requires
        1 <= cols,
        0 <= rows,
        before.len() == rows * cols,
        after.len() == rows * cols,
        rows_sum(before, cols, rows) <= usize::MAX,
        crate::valid_line(before),
        forall|t: int|
            0 <= t < rows ==> row_seq(after, cols, t) == merge_spec(
                row_seq(before, cols, t),
                dir,
            ),
    ensures
        crate::valid_line(after),
{
    assert forall|t: int| 0 <= t < rows implies crate::valid_line(
        row_seq(before, cols, t),
    ) && seq_sum(row_seq(before, cols, t)) <= usize::MAX by {
        lemma_row_extent(t, rows, cols);
        assert forall|j: int| 0 <= j < row_seq(before, cols, t).len() implies row_seq(
            before,
            cols,
            t,
        )[j] == 0 || crate::is_tile(#[trigger] row_seq(before, cols, t)[j]) by {
            assert(row_seq(before, cols, t)[j] == before[t * cols + j]);
        }
        lemma_rows_sum_mono(before, cols, t + 1, rows);
        lemma_rows_sum_nonneg(before, cols, t);
        crate::lemma_seq_sum_nonneg(row_seq(before, cols, t));
    }
    assert forall|i: int| 0 <= i < after.len() implies after[i] == 0 || crate::is_tile(
        #[trigger] after[i],
    ) by {
        let (r, c) = lemma_board_index_split(i, rows, cols);
        lemma_row_extent(r, rows, cols);
        crate::lemma_merge_preserves_tiles(row_seq(before, cols, r), dir);
        assert(row_seq(after, cols, r)[c] == after[r * cols + c]);
        assert(crate::valid_line(row_seq(after, cols, r)));
    }
}

/// A column shift writes only merged columns, and merging keeps every cell
/// empty or a tile, so a board of empty cells and tiles stays one.
pub proof fn lemma_col_shift_preserves_tiles(
    before: Seq<usize>,
    after: Seq<usize>,
    rows: int,
    cols: int,
    dir: Placement,
)
    requires
        1 <= cols,
        0 <= rows,
        before.len() == rows * cols,
        after.len() == rows * cols,
        cols_sum(before, rows, cols, cols) <= usize::MAX,
        crate::valid_line(before),
        forall|t: int|
            0 <= t < cols ==> col_seq(after, rows, cols, t) == merge_spec(
                col_seq(before, rows, cols, t),
                dir,
            ),
    ensures
        crate::valid_line(after),
{
    assert forall|t: int| 0 <= t < cols implies crate::valid_line(
        col_seq(before, rows, cols, t),
    ) && seq_sum(col_seq(before, rows, cols, t)) <= usize::MAX by {
        assert forall|j: int| 0 <= j < col_seq(before, rows, cols, t).len() implies col_seq(
            before,
            rows,
            cols,
            t,
        )[j] == 0 || crate::is_tile(#[trigger] col_seq(before, rows, cols, t)[j]) by {
            assert(col_seq(before, rows, cols, t)[j] == before[j * cols + t]);
            lemma_flat_index_bound(j, t, rows, cols);
        }
        lemma_cols_sum_mono(before, rows, cols, t + 1, cols);
        lemma_cols_sum_nonneg(before, rows, cols, t);
        crate::lemma_seq_sum_nonneg(col_seq(before, rows, cols, t));
    }
    assert forall|i: int| 0 <= i < after.len() implies after[i] == 0 || crate::is_tile(
        #[trigger] after[i],
    ) by {
        let (r, c) = lemma_board_index_split(i, rows, cols);
        crate::lemma_merge_preserves_tiles(col_seq(before, rows, cols, c), dir);
        assert(col_seq(after, rows, cols, c)[r] == after[r * cols + c]);
        assert(crate::valid_line(col_seq(after, rows, cols, c)));
    }
}

/// A board on which the game is over is frozen: every row and every column
/// is settled in both directions, so no shift can move or merge anything and
/// none can score, which is what the adjacency check stands for.
pub proof fn lemma_game_over_board_is_frozen(s: Seq<usize>, rows: int, cols: int, dir: Placement)
    requires
        spec_game_over(s, rows, cols),
        s.len() == rows * cols,
        1 <= rows,
        1 <= cols,
    ensures
        forall|t: int|
            0 <= t < rows ==> merge_spec(#[trigger] row_seq(s, cols, t), dir) == row_seq(
                s,
                cols,
                t,
            ) && points_spec(row_seq(s, cols, t), dir) == 0,
        forall|t: int|
            0 <= t < cols ==> merge_spec(#[trigger] col_seq(s, rows, cols, t), dir) == col_seq(
                s,
                rows,
                cols,
                t,
            ) && points_spec(col_seq(s, rows, cols, t), dir) == 0,
{
    assert forall|t: int| 0 <= t < rows implies merge_spec(#[trigger] row_seq(s, cols, t), dir)
        == row_seq(s, cols, t) && points_spec(row_seq(s, cols, t), dir) == 0 by {
        let line = row_seq(s, cols, t);
        lemma_row_extent(t, rows, cols);
        assert forall|i: int| 0 <= i < line.len() implies #[trigger] line[i] != 0 by {
            assert(line[i] == s[t * cols + i]);
            lemma_flat_index_bound(t, i, rows, cols);
        }
        assert forall|i: int| 0 <= i < line.len() - 1 implies #[trigger] line[i] != line[i
            + 1] by {
            assert(line[i] == cell_at(s, cols, t, i));
            assert(line[i + 1] == cell_at(s, cols, t, i + 1));
        }
        crate::lemma_full_distinct_settled(line);
        crate::lemma_settled_fixpoint(line, dir);
    }
    assert forall|t: int| 0 <= t < cols implies merge_spec(
        #[trigger] col_seq(s, rows, cols, t),
        dir,
    ) == col_seq(s, rows, cols, t) && points_spec(col_seq(s, rows, cols, t), dir) == 0 by {
        let line = col_seq(s, rows, cols, t);
        assert forall|i: int| 0 <= i < line.len() implies #[trigger] line[i] != 0 by {
            assert(line[i] == s[i * cols + t]);
            lemma_flat_index_bound(i, t, rows, cols);
        }
        assert forall|i: int| 0 <= i < line.len() - 1 implies #[trigger] line[i] != line[i
            + 1] by {
            assert(line[i] == cell_at(s, cols, i, t));
            assert(line[i + 1] == cell_at(s, cols, i + 1, t));
        }
        crate::lemma_full_distinct_settled(line);
        crate::lemma_settled_fixpoint(line, dir);
    }
}

} // verus!
