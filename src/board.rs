use vstd::prelude::*;
use crate::count::{
    count, lemma_count_le, lemma_count_partition, lemma_count_push, lemma_count_update,
};
use crate::square::{Square, SquareType};

verus! {

pub open spec fn in_bounds(w: int, h: int, x: int, y: int) -> bool {
    0 <= x < w && 0 <= y < h
}

/// Row-major position of the square at column `x`, row `y`.
pub open spec fn index(w: int, x: int, y: int) -> int {
    y * w + x
}

pub open spec fn kind_at(w: int, k: Seq<SquareType>, x: int, y: int) -> SquareType {
    k[index(w, x, y)]
}

/// Which squares of a row-major layout hold a mine.
pub open spec fn mine_bits(k: Seq<SquareType>) -> Seq<bool> {
    k.map_values(|t: SquareType| t is Mine)
}

/// 1 where (x, y) lies on the board and holds a mine, else 0.
pub open spec fn mine_at(w: int, h: int, m: Seq<bool>, x: int, y: int) -> int {
    if in_bounds(w, h, x, y) && m[index(w, x, y)] {
        1
    } else {
        0
    }
}

/// Number of mines among the up-to-eight neighbours of (x, y).
pub open spec fn adj_mines(w: int, h: int, m: Seq<bool>, x: int, y: int) -> int {
    mine_at(w, h, m, x - 1, y - 1) + mine_at(w, h, m, x, y - 1) + mine_at(w, h, m, x + 1, y - 1)
        + mine_at(w, h, m, x - 1, y) + mine_at(w, h, m, x + 1, y) + mine_at(w, h, m, x - 1, y + 1)
        + mine_at(w, h, m, x, y + 1) + mine_at(w, h, m, x + 1, y + 1)
}

/// Every safe square carries the number of mines around it.
pub open spec fn numbers_ok(w: int, h: int, k: Seq<SquareType>) -> bool {
    forall|x: int, y: int|
        #![trigger kind_at(w, k, x, y)]
        in_bounds(w, h, x, y) && !(kind_at(w, k, x, y) is Mine) ==> kind_at(w, k, x, y)
            == SquareType::Field(adj_mines(w, h, mine_bits(k), x, y) as u8)
}

/// (x2, y2) is one of the eight neighbours of (x1, y1).
pub open spec fn adjacent(x1: int, y1: int, x2: int, y2: int) -> bool {
    (x1 != x2 || y1 != y2) && -1 <= x1 - x2 <= 1 && -1 <= y1 - y2 <= 1
}

pub open spec fn kinds(g: Seq<Square>) -> Seq<SquareType> {
    g.map_values(|q: Square| q.square_type)
}

pub open spec fn count_mines(g: Seq<Square>) -> nat {
    count(g, |q: Square| q.spec_is_mine())
}

/// Safe squares that have been revealed.
pub open spec fn count_revealed(g: Seq<Square>) -> nat {
    count(g, |q: Square| q.revealed && !q.spec_is_mine())
}

/// Squares that carry a flag. Revealing clears the flag, and flagging touches
/// only hidden squares, so this counts the flagged hidden squares; the mines
/// uncovered at the end of a game keep theirs.
pub open spec fn count_flagged(g: Seq<Square>) -> nat {
    count(g, |q: Square| q.flagged)
}

pub open spec fn count_hidden(g: Seq<Square>) -> nat {
    count(g, |q: Square| !q.revealed)
}

/// The mathematical picture of a minefield.
pub struct Board {
    pub width: int,
    pub height: int,
    pub mines: int,
    pub revealed: int,
    pub flagged: int,
    pub grid: Seq<Square>,
}

impl Board {
    pub open spec fn size(self) -> int {
        self.width * self.height
    }

    pub open spec fn in_bounds(self, x: int, y: int) -> bool {
        in_bounds(self.width, self.height, x, y)
    }

    pub open spec fn sq(self, x: int, y: int) -> Square {
        self.grid[index(self.width, x, y)]
    }

    pub open spec fn kinds(self) -> Seq<SquareType> {
        kinds(self.grid)
    }

    /// The number a safe square at (x, y) must carry.
    pub open spec fn adj_mines(self, x: int, y: int) -> int {
        adj_mines(self.width, self.height, mine_bits(self.kinds()), x, y)
    }

    /// The invariant every minefield keeps: the layout is numbered correctly,
    /// there is a safe square, and the counters agree with the grid.
    pub open spec fn wf(self) -> bool {
        &&& 0 <= self.width <= 0xffff
        &&& 0 <= self.height <= 0xffff
        &&& self.grid.len() == self.size()
        &&& numbers_ok(self.width, self.height, self.kinds())
        &&& self.mines == count_mines(self.grid)
        &&& self.mines < self.size()
        &&& self.revealed == count_revealed(self.grid)
        &&& self.flagged == count_flagged(self.grid)
    }

    /// Same dimensions, mine count and layout; only the revealed / flagged
    /// state of squares may differ.
    pub open spec fn same_layout(self, other: Board) -> bool {
        &&& self.width == other.width
        &&& self.height == other.height
        &&& self.mines == other.mines
        &&& self.grid.len() == other.grid.len()
        &&& self.kinds() == other.kinds()
    }
}

pub open spec fn one_if(b: bool) -> nat {
    if b {
        1
    } else {
        0
    }
}

/// How the four counts move when one square is replaced.
pub proof fn lemma_counts_update(g: Seq<Square>, i: int, v: Square)
    requires
        0 <= i < g.len(),
    ensures
        count_mines(g.update(i, v)) + one_if(g[i].spec_is_mine()) == count_mines(g) + one_if(
            v.spec_is_mine(),
        ),
        count_revealed(g.update(i, v)) + one_if(g[i].revealed && !g[i].spec_is_mine())
            == count_revealed(g) + one_if(v.revealed && !v.spec_is_mine()),
        count_flagged(g.update(i, v)) + one_if(g[i].flagged) == count_flagged(g)
            + one_if(v.flagged),
        count_hidden(g.update(i, v)) + one_if(!g[i].revealed) == count_hidden(g) + one_if(
            !v.revealed,
        ),
        count_revealed(g.update(i, v)) <= g.len(),
        count_flagged(g.update(i, v)) <= g.len(),
{
    lemma_count_update(g, i, v, |q: Square| q.spec_is_mine());
    lemma_count_update(g, i, v, |q: Square| q.revealed && !q.spec_is_mine());
    lemma_count_update(g, i, v, |q: Square| q.flagged);
    lemma_count_update(g, i, v, |q: Square| !q.revealed);
    lemma_count_le(g.update(i, v), |q: Square| q.revealed && !q.spec_is_mine());
    lemma_count_le(g.update(i, v), |q: Square| q.flagged);
}

/// How the four counts move when a square is appended.
pub proof fn lemma_counts_push(g: Seq<Square>, v: Square)
    ensures
        count_mines(g.push(v)) == count_mines(g) + one_if(v.spec_is_mine()),
        count_revealed(g.push(v)) == count_revealed(g) + one_if(v.revealed && !v.spec_is_mine()),
        count_flagged(g.push(v)) == count_flagged(g) + one_if(v.flagged),
        count_hidden(g.push(v)) == count_hidden(g) + one_if(!v.revealed),
{
    lemma_count_push(g, v, |q: Square| q.spec_is_mine());
    lemma_count_push(g, v, |q: Square| q.revealed && !q.spec_is_mine());
    lemma_count_push(g, v, |q: Square| q.flagged);
    lemma_count_push(g, v, |q: Square| !q.revealed);
}

/// A grid whose safe squares are all revealed has as many revealed safe
/// squares as it has safe squares.
pub proof fn lemma_all_safe_revealed(g: Seq<Square>)
    requires
        forall|i: int| 0 <= i < g.len() && !(#[trigger] g[i]).spec_is_mine() ==> g[i].revealed,
    ensures
        count_revealed(g) + count_mines(g) == g.len(),
{
    lemma_count_partition(g, |q: Square| q.revealed && !q.spec_is_mine(), |q: Square| q.spec_is_mine());
}

pub proof fn lemma_index(w: int, h: int, x: int, y: int)
    requires
        in_bounds(w, h, x, y),
    ensures
        0 <= index(w, x, y) < w * h,
{
    assert(0 <= y * w) by (nonlinear_arith)
        requires
            0 <= y,
            0 <= w,
    ;
    assert(y * w + x < w * h) by (nonlinear_arith)
        requires
            0 <= x < w,
            0 <= y < h,
    ;
}

/// Distinct squares have distinct positions.
pub proof fn lemma_index_unique(w: int, h: int, x1: int, y1: int, x2: int, y2: int)
    requires
        in_bounds(w, h, x1, y1),
        in_bounds(w, h, x2, y2),
        index(w, x1, y1) == index(w, x2, y2),
    ensures
        x1 == x2 && y1 == y2,
{
    if y1 < y2 {
        assert(y1 * w + x1 < y2 * w + x2) by (nonlinear_arith)
            requires
                y1 < y2,
                0 <= x1 < w,
                0 <= x2,
        ;
    } else if y2 < y1 {
        assert(y2 * w + x2 < y1 * w + x1) by (nonlinear_arith)
            requires
                y2 < y1,
                0 <= x2 < w,
                0 <= x1,
        ;
    }
}

/// Every other square of the board sits at another position than (x, y).
pub proof fn lemma_index_others(w: int, h: int, x: int, y: int)
    requires
        in_bounds(w, h, x, y),
    ensures
        forall|x1: int, y1: int|
            #![trigger index(w, x1, y1)]
            in_bounds(w, h, x1, y1) && !(x1 == x && y1 == y) ==> index(w, x1, y1) != index(w, x, y),
{
    assert forall|x1: int, y1: int|
        #![trigger index(w, x1, y1)]
        in_bounds(w, h, x1, y1) && !(x1 == x && y1 == y) implies index(w, x1, y1) != index(
        w,
        x,
        y,
    ) by {
        if index(w, x1, y1) == index(w, x, y) {
            lemma_index_unique(w, h, x1, y1, x, y);
        }
    }
}

/// Replacing the square at (a, c) changes no other square.
pub proof fn lemma_sq_update(b: Board, a: int, c: int, s: Square)
    requires
        b.wf(),
        b.in_bounds(a, c),
    ensures
        forall|x1: int, y1: int|
            #![trigger b.grid.update(index(b.width, a, c), s)[index(b.width, x1, y1)]]
            b.in_bounds(x1, y1) ==> b.grid.update(index(b.width, a, c), s)[index(b.width, x1, y1)]
                == if x1 == a && y1 == c {
                s
            } else {
                b.grid[index(b.width, x1, y1)]
            },
{
    lemma_index_others(b.width, b.height, a, c);
    assert forall|x1: int, y1: int|
        #![trigger b.grid.update(index(b.width, a, c), s)[index(b.width, x1, y1)]]
        b.in_bounds(x1, y1) implies b.grid.update(index(b.width, a, c), s)[index(
        b.width,
        x1,
        y1,
    )] == if x1 == a && y1 == c {
        s
    } else {
        b.grid[index(b.width, x1, y1)]
    } by {
        lemma_index(b.width, b.height, x1, y1);
        lemma_index(b.width, b.height, a, c);
    }
}

pub proof fn lemma_size_bound(w: int, h: int)
    requires
        0 <= w <= 0xffff,
        0 <= h <= 0xffff,
    ensures
        w * h <= 0xfffe0001,
{
    assert(w * h <= 0xffff * 0xffff) by (nonlinear_arith)
        requires
            0 <= w <= 0xffff,
            0 <= h <= 0xffff,
    ;
}

} // verus!
