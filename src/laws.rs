use vstd::prelude::*;
use crate::board::{
    adjacent, index, kind_at, lemma_all_safe_revealed, lemma_counts_update, lemma_index, Board,
};
use crate::minefield::{
    flag_post, is_zero, newly_revealed, reach, reveal_post, spreads, toggled, uncovered,
};

verus! {

/// Every safe square of a well-formed board carries the number of mines among
/// its in-bounds neighbours, a number from 0 to 8.
pub proof fn law_numbers(b: Board, x: int, y: int)
    requires
        b.wf(),
        b.in_bounds(x, y),
        !b.sq(x, y).spec_is_mine(),
    ensures
        b.sq(x, y).spec_number() == Some(b.adj_mines(x, y) as u8),
        0 <= b.adj_mines(x, y) <= 8,
{
    lemma_index(b.width, b.height, x, y);
    assert(kind_at(b.width, b.kinds(), x, y) == b.sq(x, y).square_type);
}

/// (x1, y1) is hidden on `o` and `n` steps from (x, y), each step going from a
/// hidden square of `o` that carries the number 0 to one of its neighbours:
/// the squares a reveal of (x, y) must uncover.
pub open spec fn cascade(o: Board, x: int, y: int, n: nat, x1: int, y1: int) -> bool
    decreases n,
{
    if !o.in_bounds(x1, y1) || o.sq(x1, y1).revealed {
        false
    } else if n == 0 {
        x1 == x && y1 == y
    } else {
        exists|x2: int, y2: int|
            cascade(o, x, y, (n - 1) as nat, x2, y2) && is_zero(o.sq(x2, y2)) && #[trigger] adjacent(
                x2,
                y2,
                x1,
                y1,
            )
    }
}

proof fn lemma_cascade_revealed(o: Board, b: Board, x: int, y: int, n: nat, x1: int, y1: int)
    requires
        reveal_post(o, b, x, y),
        !o.sq(x, y).revealed,
        cascade(o, x, y, n, x1, y1),
    ensures
        b.sq(x1, y1).revealed,
    decreases n,
{
    if n > 0 {
        let (x2, y2) = choose|x2: int, y2: int|
            cascade(o, x, y, (n - 1) as nat, x2, y2) && is_zero(o.sq(x2, y2)) && #[trigger] adjacent(
                x2,
                y2,
                x1,
                y1,
            );
        lemma_cascade_revealed(o, b, x, y, (n - 1) as nat, x2, y2);
        assert(spreads(o, b, x2, y2));
        assert(b.sq(x1, y1).revealed);
    }
}

proof fn lemma_reach_cascade(o: Board, b: Board, x: int, y: int, n: nat, x1: int, y1: int)
    requires
        reach(o, b, x, y, n, x1, y1),
        o.in_bounds(x1, y1),
        !o.sq(x1, y1).revealed,
    ensures
        cascade(o, x, y, n, x1, y1),
    decreases n,
{
    if n > 0 {
        let (x2, y2) = choose|x2: int, y2: int|
            #[trigger] spreads(o, b, x2, y2) && adjacent(x2, y2, x1, y1) && reach(
                o,
                b,
                x,
                y,
                (n - 1) as nat,
                x2,
                y2,
            );
        lemma_reach_cascade(o, b, x, y, (n - 1) as nat, x2, y2);
        assert(is_zero(o.sq(x2, y2)));
        assert(exists|x3: int, y3: int|
            cascade(o, x, y, (n - 1) as nat, x3, y3) && is_zero(o.sq(x3, y3)) && #[trigger] adjacent(
                x3,
                y3,
                x1,
                y1,
            ));
    }
}

/// Revealing a hidden square (x, y) reveals exactly the squares that were
/// revealed before and those its cascade reaches: the connected region of
/// hidden zero squares around (x, y) and the squares bordering it. Nothing
/// beyond that border is uncovered, whatever the order of the neighbours.
pub proof fn law_cascade(o: Board, b: Board, x: int, y: int, x1: int, y1: int)
    requires
        o.wf(),
        reveal_post(o, b, x, y),
        !o.sq(x, y).revealed,
        o.in_bounds(x1, y1),
    ensures
        b.sq(x1, y1).revealed == (o.sq(x1, y1).revealed || exists|n: nat|
            cascade(o, x, y, n, x1, y1)),
{
    if o.sq(x1, y1).revealed {
        assert(!(x1 == x && y1 == y));
        assert(b.sq(x1, y1) == o.sq(x1, y1));
    } else if b.sq(x1, y1).revealed {
        assert(newly_revealed(o, b, x1, y1));
        let n = choose|n: nat| #[trigger] reach(o, b, x, y, n, x1, y1);
        lemma_reach_cascade(o, b, x, y, n, x1, y1);
    } else {
        if exists|n: nat| cascade(o, x, y, n, x1, y1) {
            let n = choose|n: nat| cascade(o, x, y, n, x1, y1);
            lemma_cascade_revealed(o, b, x, y, n, x1, y1);
        }
    }
}

/// Revealing a square a second time changes nothing: same squares, same
/// counters.
pub proof fn law_reveal_twice(o: Board, b1: Board, b2: Board, x: int, y: int)
    requires
        o.wf(),
        reveal_post(o, b1, x, y),
        reveal_post(b1, b2, x, y),
    ensures
        b2 == b1,
{
    assert(b1.sq(x, y).revealed);
}

/// Flagging a revealed square changes nothing.
pub proof fn law_flag_revealed(o: Board, b: Board, x: int, y: int)
    requires
        o.wf(),
        flag_post(o, b, x, y),
        o.sq(x, y).revealed,
    ensures
        b == o,
{
    lemma_index(o.width, o.height, x, y);
    assert(b.grid =~= o.grid);
}

/// Flagging a hidden square twice restores the board and the flag counter.
pub proof fn law_flag_twice(o: Board, b1: Board, b2: Board, x: int, y: int)
    requires
        o.wf(),
        flag_post(o, b1, x, y),
        flag_post(b1, b2, x, y),
        !o.sq(x, y).revealed,
    ensures
        b2 == o,
{
    lemma_index(o.width, o.height, x, y);
    assert(b1.sq(x, y) == toggled(o.sq(x, y)));
    assert(b2.grid =~= o.grid);
}

/// Revealing a flagged square that does not spread (a mine or a numbered
/// square) clears its flag and lowers the flag counter by one.
pub proof fn law_reveal_flagged(o: Board, b: Board, x: int, y: int)
    requires
        o.wf(),
        reveal_post(o, b, x, y),
        o.sq(x, y).spec_is_flagged(),
        !is_zero(o.sq(x, y)),
    ensures
        !b.sq(x, y).flagged,
        b.flagged == o.flagged - 1,
{
    lemma_index(o.width, o.height, x, y);
    lemma_counts_update(o.grid, index(o.width, x, y), uncovered(o.sq(x, y)));
}

/// Once every safe square is revealed, no safe square is left:
/// `size - mines - revealed == 0`.
pub proof fn law_win(b: Board)
    requires
        b.wf(),
        forall|i: int|
            0 <= i < b.grid.len() && !(#[trigger] b.grid[i]).spec_is_mine() ==> b.grid[i].revealed,
    ensures
        b.size() - b.mines - b.revealed == 0,
{
    lemma_all_safe_revealed(b.grid);
}

} // verus!
