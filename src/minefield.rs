use vstd::prelude::*;
use crate::board::{
    adj_mines, adjacent, count_flagged, count_hidden, count_mines, count_revealed, in_bounds,
    index, kind_at, kinds, lemma_counts_push, lemma_counts_update, lemma_index,
    lemma_index_others, lemma_index_unique, lemma_size_bound, lemma_sq_update, mine_bits, Board,
};
use crate::count::lemma_count_le;
use crate::layout::{
    count_adjacent, count_free, count_set, lemma_all_free, lemma_free_step, place_mine,
};
use crate::square::{Square, SquareType};

verus! {

/// Why an operation on a minefield was refused.
#[derive(Clone, Copy, Debug, PartialEq, Eq, Structural)]
pub enum MinefieldError {
    /// The mine count is not below the number of squares.
    TooManyMines,
    /// A coordinate lies off the grid.
    OutOfBounds,
}

/// A rectangular grid of squares, stored row by row, with running counts of
/// revealed safe squares and of flagged squares.
pub struct Minefield {
    width: u16,
    height: u16,
    size: usize,
    revealed: u32,
    flagged: u32,
    mines: u32,
    grid: Vec<Square>,
}

/// The square after a flag toggle: hidden squares flip their flag, revealed
/// squares stay as they are.
pub open spec fn toggled(s: Square) -> Square {
    if s.revealed {
        s
    } else {
        Square { flagged: !s.flagged, ..s }
    }
}

/// The square after it is uncovered: revealed and no longer flagged.
pub open spec fn uncovered(s: Square) -> Square {
    Square { flagged: false, revealed: true, ..s }
}

/// Relies on rand::random: a `usize` drawn from the thread-local generator.
/// Nothing is known of the value.
#[verifier::external_body]
fn random_usize() -> usize {
    rand::random::<usize>()
}

/// What revealing (x, y) does to board `o`, giving board `b`: a revealed
/// square changes nothing; a hidden one is uncovered, and if it carries the
/// number 0 the reveal spreads to the neighbours of every newly uncovered zero
/// square, and reaches only squares joined to (x, y) by a chain of newly
/// uncovered zero squares; the counters follow the grid.
pub open spec fn reveal_post(o: Board, b: Board, x: int, y: int) -> bool {
    &&& o.in_bounds(x, y)
    &&& b.wf()
    &&& b.same_layout(o)
    // a revealed square changes nothing
    &&& o.sq(x, y).revealed ==> b == o
    &&& !o.sq(x, y).revealed ==> b.sq(x, y) == uncovered(o.sq(x, y))
    // every square is either untouched or uncovered by this call
    &&& forall|x1: int, y1: int|
        #![trigger b.sq(x1, y1)]
        o.in_bounds(x1, y1) && !(x1 == x && y1 == y) ==> b.sq(x1, y1) == if !o.sq(
            x1,
            y1,
        ).revealed && b.sq(x1, y1).revealed {
            uncovered(o.sq(x1, y1))
        } else {
            o.sq(x1, y1)
        }
    // a mine or a numbered square spreads nothing
    &&& !o.sq(x, y).revealed && !is_zero(o.sq(x, y))
        ==> b.grid == o.grid.update(
        index(o.width, x, y),
        uncovered(o.sq(x, y)),
    )
    // the reveal spreads through every newly revealed zero square
    &&& forall|x1: int, y1: int, x2: int, y2: int|
        #![trigger spreads(o, b, x1, y1), b.sq(x2, y2)]
        spreads(o, b, x1, y1) && o.in_bounds(x2, y2) && adjacent(x1, y1, x2, y2)
            ==> b.sq(x2, y2).revealed
    // and reaches nothing that no chain of them joins to (x, y)
    &&& forall|x1: int, y1: int|
        #![trigger newly_revealed(o, b, x1, y1)]
        newly_revealed(o, b, x1, y1) ==> exists|n: nat| #[trigger] reach(o, b, x, y, n, x1, y1)
}

/// What flagging (x, y) does to board `o`, giving board `b`: a hidden square
/// flips its flag and the flag counter moves with it; a revealed one stays.
pub open spec fn flag_post(o: Board, b: Board, x: int, y: int) -> bool {
    let s = o.sq(x, y);
    &&& o.in_bounds(x, y)
    &&& b == (Board {
        grid: o.grid.update(index(o.width, x, y), toggled(s)),
        flagged: o.flagged + if s.revealed { 0int } else if s.flagged { -1int } else { 1int },
        ..o
    })
}

/// How the layout shows a square: `X` for a mine, a blank for 0, else the digit.
pub open spec fn square_char(t: SquareType) -> char {
    match t {
        SquareType::Mine => 'X',
        SquareType::Field(n) => if n == 0 {
            ' '
        } else if n == 1 {
            '1'
        } else if n == 2 {
            '2'
        } else if n == 3 {
            '3'
        } else if n == 4 {
            '4'
        } else if n == 5 {
            '5'
        } else if n == 6 {
            '6'
        } else if n == 7 {
            '7'
        } else if n == 8 {
            '8'
        } else {
            '?'
        },
    }
}

/// The first `n` squares of row `y`, as the layout shows them.
pub open spec fn row_text(b: Board, y: int, n: nat) -> Seq<char>
    decreases n,
{
    if n == 0 {
        Seq::empty()
    } else {
        row_text(b, y, (n - 1) as nat).push(square_char(b.sq(n - 1, y).square_type))
    }
}

/// The first `h` rows of the layout, each ended by a newline.
pub open spec fn layout_text(b: Board, h: nat) -> Seq<char>
    decreases h,
{
    if h == 0 {
        Seq::empty()
    } else {
        (layout_text(b, (h - 1) as nat) + row_text(b, h - 1, b.width as nat)).push('\n')
    }
}

/// Relies on String::push: appends one character.
#[verifier::external_body]
fn push_char(s: &mut String, c: char)
    ensures
        final(s)@ == old(s)@.push(c),
{
    s.push(c)
}

/// A safe square with no mine around it: revealing it spreads to its neighbours.
pub open spec fn is_zero(s: Square) -> bool {
    s.square_type == SquareType::Field(0)
}

/// (x, y) was hidden on board `o` and is revealed on board `b`.
pub open spec fn newly_revealed(o: Board, b: Board, x: int, y: int) -> bool {
    o.in_bounds(x, y) && !o.sq(x, y).revealed && b.sq(x, y).revealed
}

/// (x, y) was newly revealed and carries the number 0.
pub open spec fn spreads(o: Board, b: Board, x: int, y: int) -> bool {
    newly_revealed(o, b, x, y) && is_zero(o.sq(x, y))
}

/// (x1, y1) is `n` steps from (x, y), each step leaving a square that spreads
/// from `o` to `b` for one of its neighbours.
pub open spec fn reach(o: Board, b: Board, x: int, y: int, n: nat, x1: int, y1: int) -> bool
    decreases n,
{
    if n == 0 {
        x1 == x && y1 == y
    } else {
        exists|x2: int, y2: int|
            #[trigger] spreads(o, b, x2, y2) && adjacent(x2, y2, x1, y1) && reach(
                o,
                b,
                x,
                y,
                (n - 1) as nat,
                x2,
                y2,
            )
    }
}

/// Chains of spreading squares stay chains as more squares are uncovered.
pub proof fn lemma_reach_grows(o: Board, b1: Board, b2: Board, x: int, y: int, n: nat, x1: int, y1: int)
    requires
        forall|a: int, c: int| #[trigger] spreads(o, b1, a, c) ==> spreads(o, b2, a, c),
        reach(o, b1, x, y, n, x1, y1),
    ensures
        reach(o, b2, x, y, n, x1, y1),
    decreases n,
{
    if n > 0 {
        let (x2, y2) = choose|x2: int, y2: int|
            #[trigger] spreads(o, b1, x2, y2) && adjacent(x2, y2, x1, y1) && reach(
                o,
                b1,
                x,
                y,
                (n - 1) as nat,
                x2,
                y2,
            );
        lemma_reach_grows(o, b1, b2, x, y, (n - 1) as nat, x2, y2);
        assert(spreads(o, b2, x2, y2));
    }
}

/// (x, y) is held in the work list.
pub open spec fn on_stack(st: Seq<(u16, u16)>, x: int, y: int) -> bool {
    exists|k: int| 0 <= k < st.len() && #[trigger] st[k] == (x as u16, y as u16)
}

/// What holds while a reveal spreads from (x, y) over board `o`, with work
/// list `st`: only squares that were hidden have been uncovered, each of them
/// joined to (x, y) by a chain of uncovered zero squares, as is each square in
/// the work list, and every neighbour of an uncovered zero
/// square is revealed or waiting in the work list.
#[verifier::opaque]
spec fn spread_inv(o: Board, b: Board, st: Seq<(u16, u16)>, x: int, y: int) -> bool {
    &&& o.wf()
    &&& o.in_bounds(x, y)
    &&& spreads(o, b, x, y)
    &&& b.same_layout(o)
    &&& b.sq(x, y) == uncovered(o.sq(x, y))
    &&& forall|x1: int, y1: int|
            #![trigger b.sq(x1, y1)]
            o.in_bounds(x1, y1) && !(x1 == x && y1 == y) ==> b.sq(x1, y1) == if !o.sq(
                x1,
                y1,
            ).revealed && b.sq(x1, y1).revealed {
                uncovered(o.sq(x1, y1))
            } else {
                o.sq(x1, y1)
            }
    &&& forall|k: int|
            0 <= k < st.len() ==> o.in_bounds((#[trigger] st[k]).0 as int, st[k].1 as int) && exists|
                n: nat,
            | reach(o, b, x, y, n, st[k].0 as int, st[k].1 as int)
    &&& forall|x1: int, y1: int, x2: int, y2: int|
            #![trigger spreads(o, b, x1, y1), b.sq(x2, y2)]
            spreads(o, b, x1, y1) && o.in_bounds(x2, y2) && adjacent(x1, y1, x2, y2)
                ==> b.sq(x2, y2).revealed || on_stack(st, x2, y2)
    &&& forall|x1: int, y1: int|
            #![trigger newly_revealed(o, b, x1, y1)]
            newly_revealed(o, b, x1, y1) ==> exists|n: nat| #[trigger] reach(o, b, x, y, n, x1, y1)
}

/// Appends (x, y) to the work list if it lies on a `w` x `h` board.
fn push_if_inside(stack: &mut Vec<(u16, u16)>, w: u16, h: u16, x: i32, y: i32)
    ensures
        in_bounds(w as int, h as int, x as int, y as int) ==> final(stack)@ == old(stack)@.push(
            (x as u16, y as u16),
        ),
        !in_bounds(w as int, h as int, x as int, y as int) ==> final(stack)@ == old(stack)@,
{
    if 0 <= x && x < w as i32 && 0 <= y && y < h as i32 {
        stack.push((x as u16, y as u16));
    }
}

impl View for Minefield {
    type V = Board;

    closed spec fn view(&self) -> Board {
        Board {
            width: self.width as int,
            height: self.height as int,
            mines: self.mines as int,
            revealed: self.revealed as int,
            flagged: self.flagged as int,
            grid: self.grid@,
        }
    }
}

impl Minefield {
    /// The invariant of a minefield.
    pub closed spec fn inv(&self) -> bool {
        &&& self.size == self.width as int * self.height as int
        &&& self@.wf()
    }

    /// A minefield's picture is well formed.
    pub proof fn lemma_wf(&self)
        requires
            self.inv(),
        ensures
            self@.wf(),
    {
    }

    /// Replaces the square at position `i` by one of the same type, keeping
    /// the counters in step with the grid.
    fn set_square(&mut self, i: usize, s: Square)
        requires
            old(self).inv(),
            i < old(self)@.grid.len(),
            s.square_type == old(self)@.grid[i as int].square_type,
        ensures
            final(self).inv(),
            kinds(final(self)@.grid) == kinds(old(self)@.grid),
            final(self)@ == (Board {
                grid: old(self)@.grid.update(i as int, s),
                revealed: count_revealed(old(self)@.grid.update(i as int, s)) as int,
                flagged: count_flagged(old(self)@.grid.update(i as int, s)) as int,
                ..old(self)@
            }),
    {
        let ghost g = self.grid@;
        let ghost g2 = g.update(i as int, s);
        proof {
            lemma_counts_update(g, i as int, s);
            lemma_size_bound(self.width as int, self.height as int);
            assert(kinds(g2) =~= kinds(g));
        }
        let old_sq = self.grid[i];
        if s.revealed && !s.is_mine() {
            self.revealed = self.revealed + 1;
        }
        if s.flagged {
            self.flagged = self.flagged + 1;
        }
        if old_sq.revealed && !old_sq.is_mine() {
            self.revealed = self.revealed - 1;
        }
        if old_sq.flagged {
            self.flagged = self.flagged - 1;
        }
        self.grid.set(i, s);
    }

    /// A hidden, unflagged board of `width` x `height` squares with `mines`
    /// mines placed at random: mine `i` goes to a square drawn among the
    /// `size - i` squares that hold none yet. Fails with `TooManyMines` unless
    /// `mines < width * height`.
    pub fn create(width: u16, height: u16, mines: u32) -> (r: Result<Minefield, MinefieldError>)
        ensures
            match r {
                Ok(m) => {
                    &&& mines < width as int * height as int
                    &&& m.inv()
                    &&& m@.width == width
                    &&& m@.height == height
                    &&& m@.mines == mines
                    &&& count_mines(m@.grid) == mines
                    &&& m@.revealed == 0
                    &&& m@.flagged == 0
                    &&& forall|i: int|
                        0 <= i < m@.grid.len() ==> !(#[trigger] m@.grid[i]).revealed
                            && !m@.grid[i].flagged
                },
                Err(e) => mines >= width as int * height as int && e
                    == MinefieldError::TooManyMines,
            },
    {
        proof {
            lemma_size_bound(width as int, height as int);
        }
        let size = width as usize * height as usize;
        if mines as usize >= size {
            return Err(MinefieldError::TooManyMines);
        }
        let mut layout: Vec<bool> = Vec::new();
        let mut k: usize = 0;
        while k < size
            invariant
                k <= size,
                layout@ == Seq::new(k as nat, |j: int| false),
            decreases size - k,
        {
            layout.push(false);
            k = k + 1;
            assert(layout@ =~= Seq::new(k as nat, |j: int| false));
        }
        proof {
            lemma_all_free(size as nat);
        }
        let mut i: u32 = 0;
        while i < mines
            invariant
                i <= mines,
                mines < size,
                size == width as int * height as int,
                layout@.len() == size,
                count_free(layout@) == size - i,
                count_set(layout@) == i,
            decreases mines - i,
        {
            let position = random_usize() % (size - i as usize);
            place_mine(&mut layout, position);
            i = i + 1;
        }
        Minefield::from_layout(width, height, &layout)
    }

    /// Builds a hidden, unflagged board whose mines stand where `layout`
    /// (row-major, one entry per square) says, and numbers every safe square.
    /// Fails with `TooManyMines` unless at least one square is free of mines.
    pub fn from_layout(width: u16, height: u16, layout: &Vec<bool>) -> (r: Result<
        Minefield,
        MinefieldError,
    >)
        requires
            layout@.len() == width as int * height as int,
        ensures
            match r {
                Ok(m) => {
                    &&& count_set(layout@) < width as int * height as int
                    &&& m.inv()
                    &&& m@.width == width
                    &&& m@.height == height
                    &&& m@.mines == count_set(layout@)
                    &&& m@.revealed == 0
                    &&& m@.flagged == 0
                    &&& mine_bits(m@.kinds()) == layout@
                    &&& forall|i: int|
                        0 <= i < m@.grid.len() ==> !(#[trigger] m@.grid[i]).revealed
                            && !m@.grid[i].flagged
                },
                Err(e) => count_set(layout@) >= width as int * height as int && e
                    == MinefieldError::TooManyMines,
            },
    {
        let ghost l = layout@;
        let ghost w = width as int;
        let ghost h = height as int;
        proof {
            lemma_size_bound(w, h);
        }
        let size = width as usize * height as usize;
        if size == 0 {
            return Err(MinefieldError::TooManyMines);
        }
        let mut grid: Vec<Square> = Vec::new();
        let mut mines: u32 = 0;
        let mut i: usize = 0;
        let mut x: u16 = 0;
        let mut y: u16 = 0;
        assert(l.take(0) =~= Seq::<bool>::empty());
        while i < size
            invariant
                l == layout@,
                w == width,
                h == height,
                size == w * h,
                l.len() == size,
                size <= 0xfffe0001,
                0 <= x < w,
                i == index(w, x as int, y as int),
                i <= size,
                i < size ==> y < h,
                grid@.len() == i,
                mines == count_set(l.take(i as int)),
                count_mines(grid@) == mines,
                count_revealed(grid@) == 0,
                count_flagged(grid@) == 0,
                forall|j: int|
                    0 <= j < i ==> (#[trigger] grid@[j]).square_type is Mine == l[j]
                        && !grid@[j].revealed && !grid@[j].flagged,
                forall|x1: int, y1: int|
                    #![trigger grid@[index(w, x1, y1)]]
                    in_bounds(w, h, x1, y1) && index(w, x1, y1) < i && !l[index(w, x1, y1)]
                        ==> grid@[index(w, x1, y1)].square_type == SquareType::Field(
                        adj_mines(w, h, l, x1, y1) as u8,
                    ),
            decreases size - i,
        {
            proof {
                lemma_free_step(l, i as int);
                lemma_count_le(l.take(i as int), |b: bool| b);
            }
            let kind = if layout[i] {
                mines = mines + 1;
                SquareType::Mine
            } else {
                SquareType::Field(count_adjacent(layout, width, height, x, y))
            };
            let s = Square { flagged: false, revealed: false, square_type: kind };
            proof {
                lemma_counts_push(grid@, s);
                assert forall|x1: int, y1: int|
                    in_bounds(w, h, x1, y1) && index(w, x1, y1) == i implies x1 == x && y1 == y by {
                    lemma_index_unique(w, h, x1, y1, x as int, y as int);
                }
            }
            grid.push(s);
            i = i + 1;
            if x + 1 < width {
                x = x + 1;
            } else {
                proof {
                    assert((y + 1) * w == y * w + w) by (nonlinear_arith);
                    if y + 1 >= h {
                        assert((y + 1) * w >= h * w) by (nonlinear_arith)
                            requires
                                y + 1 >= h,
                                w >= 0,
                        ;
                    }
                }
                x = 0;
                y = y + 1;
            }
        }
        proof {
            let g = grid@;
            assert(l.take(size as int) =~= l);
            assert(mine_bits(kinds(g)) =~= l);
            assert forall|x1: int, y1: int|
                in_bounds(w, h, x1, y1) && !(kind_at(w, kinds(g), x1, y1) is Mine) implies kind_at(
                w,
                kinds(g),
                x1,
                y1,
            ) == SquareType::Field(adj_mines(w, h, mine_bits(kinds(g)), x1, y1) as u8) by {
                lemma_index(w, h, x1, y1);
                assert(g[index(w, x1, y1)].square_type is Mine == l[index(w, x1, y1)]);
            }
        }
        if mines as usize >= size {
            return Err(MinefieldError::TooManyMines);
        }
        Ok(Minefield { width, height, size, revealed: 0, flagged: 0, mines, grid })
    }

    /// Appends to the work list every neighbour of (x, y) that lies on the board.
    fn push_neighbours(&self, stack: &mut Vec<(u16, u16)>, x: u16, y: u16)
        requires
            self.inv(),
            self@.in_bounds(x as int, y as int),
        ensures
            old(stack)@.len() <= final(stack)@.len() <= old(stack)@.len() + 8,
            forall|k: int| 0 <= k < old(stack)@.len() ==> final(stack)@[k] == old(stack)@[k],
            forall|k: int|
                old(stack)@.len() <= k < final(stack)@.len() ==> self@.in_bounds(
                    (#[trigger] final(stack)@[k]).0 as int,
                    final(stack)@[k].1 as int,
                ) && adjacent(x as int, y as int, final(stack)@[k].0 as int, final(stack)@[k].1 as int),
            forall|x2: int, y2: int|
                #![trigger self@.sq(x2, y2)]
                self@.in_bounds(x2, y2) && adjacent(x as int, y as int, x2, y2) ==> on_stack(
                    final(stack)@,
                    x2,
                    y2,
                ),
    {
        let ghost s0 = stack@;
        let (w, h) = (self.width, self.height);
        let (x, y) = (x as i32, y as i32);
        push_if_inside(stack, w, h, x - 1, y - 1);
        let ghost s1 = stack@;
        push_if_inside(stack, w, h, x, y - 1);
        let ghost s2 = stack@;
        push_if_inside(stack, w, h, x + 1, y - 1);
        let ghost s3 = stack@;
        push_if_inside(stack, w, h, x - 1, y);
        let ghost s4 = stack@;
        push_if_inside(stack, w, h, x + 1, y);
        let ghost s5 = stack@;
        push_if_inside(stack, w, h, x - 1, y + 1);
        let ghost s6 = stack@;
        push_if_inside(stack, w, h, x, y + 1);
        let ghost s7 = stack@;
        push_if_inside(stack, w, h, x + 1, y + 1);
        proof {
            let f = stack@;
            assert(s0.is_prefix_of(s1) && s1.is_prefix_of(s2) && s2.is_prefix_of(s3));
            assert(s3.is_prefix_of(s4) && s4.is_prefix_of(s5) && s5.is_prefix_of(s6));
            assert(s6.is_prefix_of(s7) && s7.is_prefix_of(f));
            assert forall|x2: int, y2: int|
                self@.in_bounds(x2, y2) && adjacent(x as int, y as int, x2, y2) implies on_stack(
                f,
                x2,
                y2,
            ) by {
                let p = (x2 as u16, y2 as u16);
                if x2 == x - 1 && y2 == y - 1 {
                    assert(f[s0.len() as int] == p);
                } else if x2 == x && y2 == y - 1 {
                    assert(f[s1.len() as int] == p);
                } else if x2 == x + 1 && y2 == y - 1 {
                    assert(f[s2.len() as int] == p);
                } else if x2 == x - 1 && y2 == y {
                    assert(f[s3.len() as int] == p);
                } else if x2 == x + 1 && y2 == y {
                    assert(f[s4.len() as int] == p);
                } else if x2 == x - 1 && y2 == y + 1 {
                    assert(f[s5.len() as int] == p);
                } else if x2 == x && y2 == y + 1 {
                    assert(f[s6.len() as int] == p);
                } else {
                    assert(f[s7.len() as int] == p);
                }
            }
        }
    }

    /// Position of (x, y) in the grid, or `OutOfBounds` when it lies off the grid.
    fn position(&self, x: u16, y: u16) -> (r: Result<usize, MinefieldError>)
        requires
            self.inv(),
        ensures
            match r {
                Ok(i) => self@.in_bounds(x as int, y as int) && i == index(
                    self@.width,
                    x as int,
                    y as int,
                ) && i < self@.grid.len(),
                Err(e) => !self@.in_bounds(x as int, y as int) && e == MinefieldError::OutOfBounds,
            },
    {
        if x >= self.width || y >= self.height {
            Err(MinefieldError::OutOfBounds)
        } else {
            proof {
                lemma_index(self.width as int, self.height as int, x as int, y as int);
            }
            Ok(y as usize * self.width as usize + x as usize)
        }
    }

    /// The square at (x, y).
    pub fn get_square(&self, x: u16, y: u16) -> (r: Result<&Square, MinefieldError>)
        requires
            self.inv(),
        ensures
            match r {
                Ok(s) => self@.in_bounds(x as int, y as int) && *s == self@.sq(x as int, y as int),
                Err(e) => !self@.in_bounds(x as int, y as int) && e == MinefieldError::OutOfBounds,
            },
    {
        let i = self.position(x, y)?;
        Ok(&self.grid[i])
    }

    /// Toggles the flag of the hidden square at (x, y); a revealed square is
    /// left as it is. Returns the square afterwards.
    pub fn flag(&mut self, x: u16, y: u16) -> (r: Result<&Square, MinefieldError>)
        requires
            old(self).inv(),
        ensures
            final(self).inv(),
            !old(self)@.in_bounds(x as int, y as int) ==> r == Err::<&Square, _>(
                MinefieldError::OutOfBounds,
            ) && final(self)@ == old(self)@,
            old(self)@.in_bounds(x as int, y as int) ==> (r matches Ok(q) && *q == toggled(
                old(self)@.sq(x as int, y as int),
            )) && flag_post(old(self)@, final(self)@, x as int, y as int),
    {
        let i = self.position(x, y)?;
        let s = self.grid[i];
        if !s.revealed {
            let t = Square { flagged: !s.flagged, ..s };
            proof {
                lemma_counts_update(self.grid@, i as int, t);
            }
            self.set_square(i, t);
        } else {
            assert(self.grid@.update(i as int, s) =~= self.grid@);
        }
        Ok(&self.grid[i])
    }

    /// Reveals the square at (x, y) and returns it. A hidden square with no
    /// mine around it spreads the reveal to its neighbours, and so on through
    /// the connected zero region and its border. Newly revealed squares lose
    /// their flag; the counters follow the grid.
    #[verifier::rlimit(50)]
    pub fn reveal_square(&mut self, x: u16, y: u16) -> (r: Result<&Square, MinefieldError>)
        requires
            old(self).inv(),
        ensures
            final(self).inv(),
            !old(self)@.in_bounds(x as int, y as int) ==> r == Err::<&Square, _>(
                MinefieldError::OutOfBounds,
            ) && final(self)@ == old(self)@,
            old(self)@.in_bounds(x as int, y as int) ==> (r matches Ok(q) && *q
                == final(self)@.sq(x as int, y as int)) && reveal_post(old(self)@, final(self)@, x as int, y as int),
    {
        let i = self.position(x, y)?;
        let ghost o = self@;
        let s = self.grid[i];
        if s.revealed {
            return Ok(&self.grid[i]);
        }
        let spread = match s.square_type {
            SquareType::Field(n) => n == 0,
            SquareType::Mine => false,
        };
        proof {
            lemma_counts_update(self.grid@, i as int, uncovered(s));
            lemma_index_others(o.width, o.height, x as int, y as int);
        }
        self.set_square(i, Square { flagged: false, revealed: true, ..s });
        proof {
            lemma_sq_update(o, x as int, y as int, uncovered(s));
            assert forall|x1: int, y1: int|
                #![trigger self@.sq(x1, y1)]
                o.in_bounds(x1, y1) implies self@.sq(x1, y1) == if x1 == x && y1 == y {
                uncovered(s)
            } else {
                o.sq(x1, y1)
            } by {}
            assert(reach(o, self@, x as int, y as int, 0, x as int, y as int));
            if !spread {
                assert(self@.grid == o.grid.update(i as int, uncovered(s)));
            }
        }
        if !spread {
            return Ok(&self.grid[i]);
        }
        let mut stack: Vec<(u16, u16)> = Vec::new();
        self.push_neighbours(&mut stack, x, y);
        proof {
            reveal(spread_inv);
            let b = self@;
            assert(spreads(o, b, x as int, y as int));
            assert forall|k: int| 0 <= k < stack@.len() implies o.in_bounds(
                (#[trigger] stack@[k]).0 as int,
                stack@[k].1 as int,
            ) && exists|n: nat| reach(o, b, x as int, y as int, n, stack@[k].0 as int, stack@[k].1 as int) by {
                assert(reach(o, b, x as int, y as int, 0, x as int, y as int));
                assert(reach(o, b, x as int, y as int, 1, stack@[k].0 as int, stack@[k].1 as int));
            }
            assert forall|x1: int, y1: int|
                #[trigger] newly_revealed(o, b, x1, y1) implies x1 == x && y1 == y by {
                if !(x1 == x && y1 == y) {
                    assert(b.sq(x1, y1) == o.sq(x1, y1));
                }
            }
        }
        while stack.len() > 0
            invariant
                self.inv(),
                o == old(self)@,
                i == index(o.width, x as int, y as int),
                spread_inv(o, self@, stack@, x as int, y as int),
            decreases 9 * count_hidden(self@.grid) + stack@.len(),
        {
            self.spread_step(&mut stack, Ghost(o), x, y);
        }
        proof {
            reveal(spread_inv);
        }
        Ok(&self.grid[i])
    }

    /// Takes one square off the work list and uncovers it if it is hidden,
    /// queueing its neighbours when it carries the number 0.
    #[verifier::rlimit(100)]
    #[verifier::spinoff_prover]
    fn spread_step(&mut self, stack: &mut Vec<(u16, u16)>, o: Ghost<Board>, x: u16, y: u16)
        requires
            old(self).inv(),
            old(stack)@.len() > 0,
            spread_inv(o@, old(self)@, old(stack)@, x as int, y as int),
        ensures
            final(self).inv(),
            spread_inv(o@, final(self)@, final(stack)@, x as int, y as int),
            9 * count_hidden(final(self)@.grid) + final(stack)@.len() < 9 * count_hidden(
                old(self)@.grid,
            ) + old(stack)@.len(),
    {
        let ghost o = o@;
        let ghost before = self@;
        let ghost st = stack@;
        let ghost (x0, y0) = (x as int, y as int);
        proof {
            Self::lemma_inv_facts(o, before, st, x0, y0);
        }
        let (px, py) = stack.pop().unwrap();
        let ghost (pa, pb) = (px as int, py as int);
        proof {
            assert(stack@ =~= st.drop_last());
            assert(st[st.len() - 1] == (px, py));
        }
        let j = self.position(px, py).unwrap();
        let t = self.grid[j];
        if !t.revealed {
            proof {
                lemma_counts_update(self.grid@, j as int, uncovered(t));
            }
            self.set_square(j, Square { flagged: false, revealed: true, ..t });
            proof {
                lemma_sq_update(before, pa, pb, uncovered(t));
                assert forall|x1: int, y1: int|
                    #![trigger self@.sq(x1, y1)]
                    o.in_bounds(x1, y1) implies self@.sq(x1, y1) == if x1 == pa && y1 == pb {
                    uncovered(before.sq(x1, y1))
                } else {
                    before.sq(x1, y1)
                } by {}
            }
            let zero = match t.square_type {
                SquareType::Field(n) => n == 0,
                SquareType::Mine => false,
            };
            if zero {
                self.push_neighbours(stack, px, py);
                proof {
                    assert forall|x2: int, y2: int|
                        o.in_bounds(x2, y2) && adjacent(pa, pb, x2, y2) implies #[trigger] on_stack(
                        stack@,
                        x2,
                        y2,
                    ) by {
                        let _ = self@.sq(x2, y2);
                    }
                }
            }
            proof {
                Self::lemma_uncovered_step(o, before, self@, st, stack@, x0, y0, pa, pb, zero);
            }
        } else {
            proof {
                Self::lemma_skipped_step(o, before, st, stack@, x0, y0, pa, pb);
            }
        }
    }

    /// What the spreading invariant gives at each step: the original board is
    /// well formed, the layout is kept, and the work list holds squares of the board.
    proof fn lemma_inv_facts(o: Board, b: Board, st: Seq<(u16, u16)>, x: int, y: int)
        requires
            spread_inv(o, b, st, x, y),
        ensures
            o.wf(),
            b.same_layout(o),
            forall|k: int|
                0 <= k < st.len() ==> o.in_bounds((#[trigger] st[k]).0 as int, st[k].1 as int),
    {
        reveal(spread_inv);
    }

    /// Taking an already revealed square off the work list keeps the invariant.
    #[verifier::rlimit(100)]
    proof fn lemma_skipped_step(
        o: Board,
        before: Board,
        st: Seq<(u16, u16)>,
        f: Seq<(u16, u16)>,
        x0: int,
        y0: int,
        pa: int,
        pb: int,
    )
        requires
            spread_inv(o, before, st, x0, y0),
            st.len() > 0,
            st[st.len() - 1] == (pa as u16, pb as u16),
            o.in_bounds(pa, pb),
            before.sq(pa, pb).revealed,
            f == st.drop_last(),
        ensures
            spread_inv(o, before, f, x0, y0),
    {
        reveal(spread_inv);
        assert forall|k: int| 0 <= k < f.len() implies o.in_bounds(
            (#[trigger] f[k]).0 as int,
            f[k].1 as int,
        ) && exists|n: nat| reach(o, before, x0, y0, n, f[k].0 as int, f[k].1 as int) by {
            assert(f[k] == st[k]);
            let n = choose|n: nat| reach(o, before, x0, y0, n, st[k].0 as int, st[k].1 as int);
            assert(reach(o, before, x0, y0, n, f[k].0 as int, f[k].1 as int));
        }
        assert forall|x1: int, y1: int, x2: int, y2: int|
            #![trigger spreads(o, before, x1, y1), before.sq(x2, y2)]
            spreads(o, before, x1, y1) && o.in_bounds(x2, y2) && adjacent(x1, y1, x2, y2)
                implies before.sq(x2, y2).revealed || on_stack(f, x2, y2) by {
            if !before.sq(x2, y2).revealed {
                let k = choose|k: int|
                    0 <= k < st.len() && #[trigger] st[k] == (x2 as u16, y2 as u16);
                assert(!(x2 == pa && y2 == pb));
                assert(k < st.len() - 1);
                assert(f[k] == st[k]);
            }
        }
    }

    /// The work list and board after uncovering the hidden square (pa, pb)
    /// taken off its end, and queueing its neighbours if it is a zero square,
    /// still satisfy the spreading invariant.
    #[verifier::rlimit(100)]
    proof fn lemma_uncovered_step(
        o: Board,
        before: Board,
        b: Board,
        st: Seq<(u16, u16)>,
        f: Seq<(u16, u16)>,
        x0: int,
        y0: int,
        pa: int,
        pb: int,
        zero: bool,
    )
        requires
            spread_inv(o, before, st, x0, y0),
            st.len() > 0,
            st[st.len() - 1] == (pa as u16, pb as u16),
            o.in_bounds(pa, pb),
            !before.sq(pa, pb).revealed,
            b.same_layout(o),
            zero == is_zero(before.sq(pa, pb)),
            forall|x1: int, y1: int|
                #![trigger b.sq(x1, y1)]
                o.in_bounds(x1, y1) ==> b.sq(x1, y1) == if x1 == pa && y1 == pb {
                    uncovered(before.sq(x1, y1))
                } else {
                    before.sq(x1, y1)
                },
            st.len() - 1 <= f.len(),
            forall|k: int| 0 <= k < st.len() - 1 ==> f[k] == st[k],
            forall|k: int|
                st.len() - 1 <= k < f.len() ==> zero && o.in_bounds(
                    (#[trigger] f[k]).0 as int,
                    f[k].1 as int,
                ) && adjacent(pa, pb, f[k].0 as int, f[k].1 as int),
            zero ==> forall|x2: int, y2: int|
                #![trigger b.sq(x2, y2)]
                o.in_bounds(x2, y2) && adjacent(pa, pb, x2, y2) ==> on_stack(f, x2, y2),
        ensures
            spread_inv(o, b, f, x0, y0),
    {
        reveal(spread_inv);
        let mid = st.drop_last();
        assert forall|x1: int, y1: int|
            #[trigger] spreads(o, before, x1, y1) implies spreads(o, b, x1, y1) by {
            assert(b.sq(x1, y1).revealed);
        }
        assert(before.sq(pa, pb) == o.sq(pa, pb));
        assert(newly_revealed(o, b, pa, pb));
        assert(b.sq(x0, y0) == before.sq(x0, y0));
        assert(spreads(o, b, x0, y0));
        let n0 = choose|n: nat| reach(o, before, x0, y0, n, pa, pb);
        lemma_reach_grows(o, before, b, x0, y0, n0, pa, pb);
        assert forall|k: int| 0 <= k < f.len() implies o.in_bounds(
            (#[trigger] f[k]).0 as int,
            f[k].1 as int,
        ) && exists|n: nat| reach(o, b, x0, y0, n, f[k].0 as int, f[k].1 as int) by {
            if k < mid.len() {
                assert(f[k] == st[k]);
                let n = choose|n: nat| reach(o, before, x0, y0, n, st[k].0 as int, st[k].1 as int);
                lemma_reach_grows(o, before, b, x0, y0, n, st[k].0 as int, st[k].1 as int);
            } else {
                assert(o.in_bounds(f[k].0 as int, f[k].1 as int));
                assert(zero);
                assert(spreads(o, b, pa, pb));
                assert(reach(o, b, x0, y0, n0 + 1, f[k].0 as int, f[k].1 as int));
            }
        }
        assert forall|x1: int, y1: int, x2: int, y2: int|
            #![trigger spreads(o, b, x1, y1), b.sq(x2, y2)]
            spreads(o, b, x1, y1) && o.in_bounds(x2, y2) && adjacent(x1, y1, x2, y2)
                implies b.sq(x2, y2).revealed || on_stack(f, x2, y2) by {
            if x1 == pa && y1 == pb {
                assert(zero);
            } else {
                assert(spreads(o, before, x1, y1));
                assert(before.sq(x2, y2).revealed || on_stack(st, x2, y2));
                if !before.sq(x2, y2).revealed && !(x2 == pa && y2 == pb) {
                    let k = choose|k: int|
                        0 <= k < st.len() && #[trigger] st[k] == (x2 as u16, y2 as u16);
                    assert(k < st.len() - 1);
                    assert(f[k] == st[k]);
                }
            }
        }
        assert forall|x1: int, y1: int|
            #[trigger] newly_revealed(o, b, x1, y1) implies exists|n: nat| #[trigger] reach(
                o,
                b,
                x0,
                y0,
                n,
                x1,
                y1,
            ) by {
            if x1 == pa && y1 == pb {
                assert(reach(o, b, x0, y0, n0, x1, y1));
            } else {
                assert(newly_revealed(o, before, x1, y1));
                let n = choose|n: nat| #[trigger] reach(o, before, x0, y0, n, x1, y1);
                lemma_reach_grows(o, before, b, x0, y0, n, x1, y1);
            }
        }
    }

    /// The layout of mines and numbers, one line per row.
    pub fn layout_string(&self) -> (r: String)
        requires
            self.inv(),
        ensures
            r@ == layout_text(self@, self@.height as nat),
    {
        let mut out = String::new();
        let mut y: u16 = 0;
        while y < self.height
            invariant
                self.inv(),
                y <= self.height,
                out@ == layout_text(self@, y as nat),
            decreases self.height - y,
        {
            let mut x: u16 = 0;
            while x < self.width
                invariant
                    self.inv(),
                    y < self.height,
                    x <= self.width,
                    out@ == layout_text(self@, y as nat) + row_text(self@, y as int, x as nat),
                decreases self.width - x,
            {
                proof {
                    lemma_index(self.width as int, self.height as int, x as int, y as int);
                    lemma_size_bound(self.width as int, self.height as int);
                }
                let c = match self.grid[y as usize * self.width as usize + x as usize].square_type {
                    SquareType::Mine => 'X',
                    SquareType::Field(n) => if n == 0 {
                        ' '
                    } else if n == 1 {
                        '1'
                    } else if n == 2 {
                        '2'
                    } else if n == 3 {
                        '3'
                    } else if n == 4 {
                        '4'
                    } else if n == 5 {
                        '5'
                    } else if n == 6 {
                        '6'
                    } else if n == 7 {
                        '7'
                    } else if n == 8 {
                        '8'
                    } else {
                        '?'
                    },
                };
                push_char(&mut out, c);
                proof {
                    let b = self@;
                    assert(row_text(b, y as int, (x + 1) as nat) == row_text(b, y as int, x as nat).push(c));
                    assert(out@ =~= layout_text(b, y as nat) + row_text(b, y as int, (x + 1) as nat));
                }
                x = x + 1;
            }
            push_char(&mut out, '\n');
            proof {
                assert(out@ =~= layout_text(self@, (y + 1) as nat));
            }
            y = y + 1;
        }
        out
    }

    /// Uncovers every mine, leaving both counters as they are: what a lost
    /// game shows.
    pub fn finish(&mut self)
        requires
            old(self).inv(),
        ensures
            final(self).inv(),
            final(self)@.same_layout(old(self)@),
            final(self)@.revealed == old(self)@.revealed,
            final(self)@.flagged == old(self)@.flagged,
            forall|i: int|
                0 <= i < old(self)@.grid.len() ==> #[trigger] final(self)@.grid[i] == if old(
                    self,
                )@.grid[i].spec_is_mine() {
                    Square { revealed: true, ..old(self)@.grid[i] }
                } else {
                    old(self)@.grid[i]
                },
    {
        let ghost o = self@;
        let mut i: usize = 0;
        while i < self.grid.len()
            invariant
                self.inv(),
                o == old(self)@,
                self@.same_layout(o),
                self@.revealed == o.revealed,
                self@.flagged == o.flagged,
                i <= self@.grid.len(),
                forall|k: int|
                    0 <= k < self@.grid.len() ==> #[trigger] self@.grid[k] == if k < i
                        && o.grid[k].spec_is_mine() {
                        Square { revealed: true, ..o.grid[k] }
                    } else {
                        o.grid[k]
                    },
            decreases self@.grid.len() - i,
        {
            let t = self.grid[i];
            if t.is_mine() {
                let u = Square { revealed: true, ..t };
                proof {
                    lemma_counts_update(self.grid@, i as int, u);
                }
                self.set_square(i, u);
            }
            i = i + 1;
        }
    }

    pub fn get_width(&self) -> (r: u16)
        ensures
            r == self@.width,
    {
        self.width
    }

    pub fn get_height(&self) -> (r: u16)
        ensures
            r == self@.height,
    {
        self.height
    }

    /// Number of safe squares revealed so far.
    pub fn get_revealed(&self) -> (r: u32)
        ensures
            r == self@.revealed,
    {
        self.revealed
    }

    /// Number of hidden squares that carry a flag.
    pub fn get_flagged(&self) -> (r: u32)
        ensures
            r == self@.flagged,
    {
        self.flagged
    }

    pub fn get_mines(&self) -> (r: u32)
        ensures
            r == self@.mines,
    {
        self.mines
    }

    /// Number of squares, `width * height`.
    pub fn get_size(&self) -> (r: usize)
        requires
            self.inv(),
        ensures
            r == self@.size(),
    {
        self.size
    }
}

} // verus!
