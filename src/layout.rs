use vstd::prelude::*;
use crate::board::{adj_mines, in_bounds, index, lemma_index, lemma_size_bound, mine_at};
use crate::count::{count, lemma_count_le, lemma_count_push, lemma_count_update};

verus! {

/// Number of squares of a layout that hold no mine.
pub open spec fn count_free(m: Seq<bool>) -> nat {
    count(m, |b: bool| !b)
}

/// Number of squares of a layout that hold a mine.
pub open spec fn count_set(m: Seq<bool>) -> nat {
    count(m, |b: bool| b)
}

/// Number of mine-free squares before position `j`.
pub open spec fn free_before(m: Seq<bool>, j: int) -> nat {
    count_free(m.take(j))
}

pub proof fn lemma_free_step(m: Seq<bool>, j: int)
    requires
        0 <= j < m.len(),
    ensures
        free_before(m, j + 1) == free_before(m, j) + if m[j] { 0nat } else { 1nat },
        count_set(m.take(j + 1)) == count_set(m.take(j)) + if m[j] { 1nat } else { 0nat },
{
    assert(m.take(j + 1) =~= m.take(j).push(m[j]));
    lemma_count_push(m.take(j), m[j], |b: bool| !b);
    lemma_count_push(m.take(j), m[j], |b: bool| b);
}

/// Setting a free square moves one square from the free count to the mine count.
pub proof fn lemma_set_free(m: Seq<bool>, j: int)
    requires
        0 <= j < m.len(),
        !m[j],
    ensures
        count_free(m.update(j, true)) + 1 == count_free(m),
        count_set(m.update(j, true)) == count_set(m) + 1,
{
    lemma_count_update(m, j, true, |b: bool| !b);
    lemma_count_update(m, j, true, |b: bool| b);
}

pub proof fn lemma_all_free(n: nat)
    ensures
        count_free(Seq::new(n, |i: int| false)) == n,
        count_set(Seq::new(n, |i: int| false)) == 0,
    decreases n,
{
    if n > 0 {
        lemma_all_free((n - 1) as nat);
        assert(Seq::new(n, |i: int| false).drop_last() =~= Seq::new((n - 1) as nat, |i: int| false));
    }
}

/// Turns the `position`-th mine-free square (counting from 0 in grid order)
/// into a mine.
pub fn place_mine(layout: &mut Vec<bool>, position: usize)
    requires
        position < count_free(old(layout)@),
    ensures
        exists|j: int|
            0 <= j < old(layout)@.len() && !old(layout)@[j] && free_before(old(layout)@, j)
                == position && final(layout)@ == old(layout)@.update(j, true),
        count_free(final(layout)@) + 1 == count_free(old(layout)@),
        count_set(final(layout)@) == count_set(old(layout)@) + 1,
{
    let ghost m = layout@;
    let mut pos = position;
    let mut j: usize = 0;
    assert(m.take(0) =~= Seq::<bool>::empty());
    while j < layout.len()
        invariant
            layout@ == m,
            m == old(layout)@,
            0 <= j <= m.len(),
            pos + free_before(m, j as int) == position,
            position < count_free(m),
        decreases m.len() - j,
    {
        proof {
            lemma_free_step(m, j as int);
        }
        if !layout[j] {
            if pos == 0 {
                layout.set(j, true);
                proof {
                    lemma_set_free(m, j as int);
                    assert(0 <= j < m.len() && !m[j as int] && free_before(m, j as int) == position
                        && layout@ == m.update(j as int, true));
                }
                return;
            }
            pos = pos - 1;
        }
        j = j + 1;
    }
    assert(m.take(m.len() as int) =~= m);
    assert(false);
}

/// 1 if (x, y) lies on the board and holds a mine, else 0.
fn mine_bit(layout: &Vec<bool>, w: u16, h: u16, x: i32, y: i32) -> (r: u8)
    requires
        layout@.len() == w as int * h as int,
    ensures
        r == mine_at(w as int, h as int, layout@, x as int, y as int),
{
    if 0 <= x && x < w as i32 && 0 <= y && y < h as i32 {
        proof {
            lemma_index(w as int, h as int, x as int, y as int);
            lemma_size_bound(w as int, h as int);
        }
        if layout[y as usize * w as usize + x as usize] {
            1
        } else {
            0
        }
    } else {
        0
    }
}

/// Number of mines among the neighbours of (x, y).
pub fn count_adjacent(layout: &Vec<bool>, w: u16, h: u16, x: u16, y: u16) -> (r: u8)
    requires
        layout@.len() == w as int * h as int,
    ensures
        r == adj_mines(w as int, h as int, layout@, x as int, y as int),
{
    let x = x as i32;
    let y = y as i32;
    mine_bit(layout, w, h, x - 1, y - 1) + mine_bit(layout, w, h, x, y - 1) + mine_bit(
        layout,
        w,
        h,
        x + 1,
        y - 1,
    ) + mine_bit(layout, w, h, x - 1, y) + mine_bit(layout, w, h, x + 1, y) + mine_bit(
        layout,
        w,
        h,
        x - 1,
        y + 1,
    ) + mine_bit(layout, w, h, x, y + 1) + mine_bit(layout, w, h, x + 1, y + 1)
}

} // verus!
