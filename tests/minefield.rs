use rusty_mines::layout::{count_adjacent, place_mine};
use rusty_mines::minefield::{Minefield, MinefieldError};

fn layout_of(rows: &[&str]) -> Vec<bool> {
    let mut v = Vec::new();
    for r in rows {
        for c in r.chars() {
            v.push(c == 'X');
        }
    }
    v
}

/// Five columns, three rows, a wall of mines in the middle column.
fn walled() -> Minefield {
    Minefield::from_layout(5, 3, &layout_of(&["..X..", "..X..", "..X.."])).unwrap()
}

fn count_mines(m: &Minefield) -> usize {
    let mut n = 0;
    for y in 0..m.get_height() {
        for x in 0..m.get_width() {
            if m.get_square(x, y).unwrap().is_mine() {
                n += 1;
            }
        }
    }
    n
}

#[test]
fn create_places_exactly_the_requested_mines() {
    for &(w, h, k) in &[(10u16, 8u16, 15u32), (1, 1, 0), (3, 3, 8), (7, 2, 0), (30, 16, 99)] {
        let m = Minefield::create(w, h, k).unwrap();
        assert_eq!(count_mines(&m), k as usize);
        assert_eq!(m.get_mines(), k);
        assert_eq!(m.get_size(), w as usize * h as usize);
        assert_eq!(m.get_width(), w);
        assert_eq!(m.get_height(), h);
        assert_eq!(m.get_revealed(), 0);
        assert_eq!(m.get_flagged(), 0);
        for y in 0..h {
            for x in 0..w {
                let s = m.get_square(x, y).unwrap();
                assert!(!s.is_revealed());
                assert!(!s.is_flagged());
            }
        }
    }
}

#[test]
fn create_rejects_too_many_mines() {
    assert_eq!(Minefield::create(3, 3, 9).err(), Some(MinefieldError::TooManyMines));
    assert_eq!(Minefield::create(3, 3, 100).err(), Some(MinefieldError::TooManyMines));
    assert_eq!(Minefield::create(1, 1, 1).err(), Some(MinefieldError::TooManyMines));
    assert_eq!(Minefield::create(0, 5, 0).err(), Some(MinefieldError::TooManyMines));
}

#[test]
fn from_layout_rejects_a_board_without_safe_square() {
    let r = Minefield::from_layout(2, 1, &layout_of(&["XX"]));
    assert_eq!(r.err(), Some(MinefieldError::TooManyMines));
}

#[test]
fn numbers_around_a_centre_mine() {
    let m = Minefield::from_layout(3, 3, &layout_of(&["...", ".X.", "..."])).unwrap();
    assert_eq!(m.get_mines(), 1);
    let c = m.get_square(1, 1).unwrap();
    assert!(c.is_mine());
    assert_eq!(c.get_number(), None);
    for y in 0..3u16 {
        for x in 0..3u16 {
            if (x, y) != (1, 1) {
                let s = m.get_square(x, y).unwrap();
                assert!(!s.is_mine());
                assert_eq!(s.get_number(), Some(1));
            }
        }
    }
}

#[test]
fn numbers_count_in_bounds_neighbours() {
    let m = Minefield::from_layout(4, 3, &layout_of(&["X..X", "....", "XX.."])).unwrap();
    let expected = [[None, Some(1), Some(1), None], [Some(3), Some(3), Some(2), Some(1)], [None, None, Some(1), Some(0)]];
    for y in 0..3u16 {
        for x in 0..4u16 {
            assert_eq!(m.get_square(x, y).unwrap().get_number(), expected[y as usize][x as usize]);
        }
    }
}

#[test]
fn reveal_twice_changes_nothing() {
    let mut m = walled();
    let first = *m.reveal_square(1, 1).unwrap();
    let (r, f) = (m.get_revealed(), m.get_flagged());
    assert_eq!(r, 1);
    let second = *m.reveal_square(1, 1).unwrap();
    assert_eq!(first, second);
    assert_eq!(m.get_revealed(), r);
    assert_eq!(m.get_flagged(), f);
}

#[test]
fn flag_on_revealed_square_is_ignored() {
    let mut m = walled();
    m.reveal_square(1, 0).unwrap();
    let before = *m.get_square(1, 0).unwrap();
    let after = *m.flag(1, 0).unwrap();
    assert_eq!(before, after);
    assert!(!after.is_flagged());
    assert_eq!(m.get_flagged(), 0);
}

#[test]
fn flag_toggles() {
    let mut m = walled();
    assert!(m.flag(3, 2).unwrap().is_flagged());
    assert_eq!(m.get_flagged(), 1);
    assert!(m.flag(4, 0).unwrap().is_flagged());
    assert_eq!(m.get_flagged(), 2);
    assert!(!m.flag(3, 2).unwrap().is_flagged());
    assert_eq!(m.get_flagged(), 1);
    assert!(!m.get_square(3, 2).unwrap().is_revealed());
}

#[test]
fn reveal_clears_flag() {
    let mut m = walled();
    m.flag(1, 2).unwrap();
    m.flag(2, 2).unwrap();
    assert_eq!(m.get_flagged(), 2);
    let s = *m.reveal_square(1, 2).unwrap();
    assert!(s.is_revealed());
    assert!(!s.is_flagged());
    assert_eq!(s.get_number(), Some(2));
    assert_eq!(m.get_flagged(), 1);
    assert_eq!(m.get_revealed(), 1);
}

#[test]
fn cascade_stops_at_the_border() {
    let mut m = walled();
    let s = *m.reveal_square(0, 0).unwrap();
    assert_eq!(s.get_number(), Some(0));
    for y in 0..3u16 {
        for x in 0..5u16 {
            assert_eq!(m.get_square(x, y).unwrap().is_revealed(), x < 2, "({}, {})", x, y);
        }
    }
    assert_eq!(m.get_revealed(), 6);
}

#[test]
fn cascade_over_an_open_board() {
    let mut m = Minefield::from_layout(4, 4, &layout_of(&["....", "....", "....", "...X"])).unwrap();
    m.flag(3, 0).unwrap();
    m.reveal_square(0, 0).unwrap();
    assert_eq!(m.get_revealed(), 15);
    assert_eq!(m.get_flagged(), 0);
    assert!(!m.get_square(3, 3).unwrap().is_revealed());
    assert_eq!(m.get_square(2, 2).unwrap().get_number(), Some(1));
}

#[test]
fn numbered_square_does_not_spread() {
    let mut m = walled();
    m.reveal_square(3, 1).unwrap();
    assert_eq!(m.get_revealed(), 1);
    assert!(!m.get_square(4, 1).unwrap().is_revealed());
}

#[test]
fn win_when_every_safe_square_is_revealed() {
    let mut m = walled();
    m.reveal_square(0, 0).unwrap();
    assert_ne!(m.get_size() - m.get_mines() as usize - m.get_revealed() as usize, 0);
    m.reveal_square(4, 2).unwrap();
    assert_eq!(m.get_size() - m.get_mines() as usize - m.get_revealed() as usize, 0);
}

#[test]
fn loss_then_finish_uncovers_mines() {
    let mut m = walled();
    m.reveal_square(0, 0).unwrap();
    m.flag(2, 0).unwrap();
    let s = *m.reveal_square(2, 1).unwrap();
    assert!(s.is_mine());
    assert!(s.is_revealed());
    assert_eq!(m.get_revealed(), 6);
    m.finish();
    for y in 0..3u16 {
        assert!(m.get_square(2, y).unwrap().is_revealed());
        assert!(!m.get_square(4, y).unwrap().is_revealed());
    }
    assert_eq!(m.get_revealed(), 6);
    assert_eq!(m.get_flagged(), 1);
    m.finish();
    assert_eq!(m.get_revealed(), 6);
}

#[test]
fn out_of_bounds_is_refused() {
    let mut m = walled();
    m.flag(0, 0).unwrap();
    for &(x, y) in &[(5u16, 0u16), (0, 3), (5, 3), (100, 1), (1, 65535)] {
        assert_eq!(m.reveal_square(x, y).err(), Some(MinefieldError::OutOfBounds));
        assert_eq!(m.flag(x, y).err(), Some(MinefieldError::OutOfBounds));
        assert_eq!(m.get_square(x, y).err(), Some(MinefieldError::OutOfBounds));
    }
    assert_eq!(m.get_revealed(), 0);
    assert_eq!(m.get_flagged(), 1);
    for y in 0..3u16 {
        for x in 0..5u16 {
            assert!(!m.get_square(x, y).unwrap().is_revealed());
        }
    }
}

#[test]
fn place_mine_counts_only_free_squares() {
    let mut l = vec![false, true, false, false];
    place_mine(&mut l, 1);
    assert_eq!(l, vec![false, true, true, false]);
    place_mine(&mut l, 0);
    assert_eq!(l, vec![true, true, true, false]);
    place_mine(&mut l, 0);
    assert_eq!(l, vec![true, true, true, true]);
}

#[test]
fn count_adjacent_on_corners_and_edges() {
    let l = layout_of(&["X.X", "...", "XX."]);
    assert_eq!(count_adjacent(&l, 3, 3, 1, 1), 4);
    assert_eq!(count_adjacent(&l, 3, 3, 0, 0), 0);
    assert_eq!(count_adjacent(&l, 3, 3, 2, 2), 1);
    assert_eq!(count_adjacent(&l, 3, 3, 0, 1), 3);
}

#[test]
fn reveal_after_finish_keeps_counters() {
    let mut m = walled();
    m.flag(2, 0).unwrap();
    m.reveal_square(2, 1).unwrap();
    m.finish();
    let before = *m.get_square(2, 0).unwrap();
    let (r, f) = (m.get_revealed(), m.get_flagged());
    let after = *m.reveal_square(2, 0).unwrap();
    assert_eq!(before, after);
    assert_eq!(m.get_revealed(), r);
    assert_eq!(m.get_flagged(), f);
}

#[test]
fn cascade_does_not_cross_a_mine() {
    let mut m = Minefield::from_layout(7, 1, &layout_of(&["...X..."])).unwrap();
    m.reveal_square(0, 0).unwrap();
    for x in 0..7u16 {
        assert_eq!(m.get_square(x, 0).unwrap().is_revealed(), x < 3, "({}, 0)", x);
    }
    assert_eq!(m.get_revealed(), 3);
}

#[test]
fn layout_string_shows_mines_and_numbers() {
    assert_eq!(walled().layout_string(), " 2X2 \n 3X3 \n 2X2 \n");
    let m = Minefield::from_layout(3, 3, &layout_of(&["...", ".X.", "..."])).unwrap();
    assert_eq!(m.layout_string(), "111\n1X1\n111\n");
}
