use entropic::state::{Dimension, Position};

#[test]
fn number_is_width_times_height() {
    assert_eq!(Dimension { width: 80, height: 24 }.number(), 1920);
    assert_eq!(Dimension { width: 0, height: 24 }.number(), 0);
    assert_eq!(Dimension { width: 80, height: 0 }.number(), 0);
    assert_eq!(Dimension { width: 65535, height: 65535 }.number(), 4294836225);
}

#[test]
fn min_and_max_go_by_component() {
    let a = Dimension { width: 80, height: 24 };
    let b = Dimension { width: 40, height: 50 };
    assert_eq!(a.min(b), Dimension { width: 40, height: 24 });
    assert_eq!(a.max(b), Dimension { width: 80, height: 50 });
    assert_eq!(b.min(a), a.min(b));
    assert_eq!(b.max(a), a.max(b));
    assert_eq!(a.min(a), a);
    assert_eq!(a.max(a), a);
}

#[test]
fn offset_counts_row_by_row() {
    let size = Dimension { width: 80, height: 24 };
    assert_eq!(size.offset(Position { x: 0, y: 0 }), 0);
    assert_eq!(size.offset(Position { x: 79, y: 0 }), 79);
    assert_eq!(size.offset(Position { x: 0, y: 1 }), 80);
    assert_eq!(size.offset(Position { x: 5, y: 3 }), 245);
    assert_eq!(size.offset(Position { x: 79, y: 23 }), 1919);
    let largest = Dimension { width: 65535, height: 65535 };
    assert_eq!(largest.offset(Position { x: 65535, y: 65535 }), 4294901760);
}

#[test]
fn default_position_is_the_origin() {
    assert_eq!(Position::default(), Position { x: 0, y: 0 });
}

#[test]
fn positions_come_row_by_row() {
    let mut walk = Dimension { width: 3, height: 2 }.into_iter();
    let mut seen = Vec::new();
    while let Some(pos) = walk.next() {
        seen.push((pos.x, pos.y));
    }
    assert_eq!(seen, vec![(0, 0), (1, 0), (2, 0), (0, 1), (1, 1), (2, 1)]);
    assert_eq!(walk.next(), None);
    assert_eq!(walk.next(), None);
}

#[test]
fn an_extent_without_width_or_height_has_no_positions() {
    assert_eq!(Dimension { width: 0, height: 5 }.into_iter().next(), None);
    assert_eq!(Dimension { width: 5, height: 0 }.into_iter().next(), None);
    assert_eq!(Dimension { width: 0, height: 0 }.into_iter().next(), None);
}

#[test]
fn the_walk_hands_out_every_position_once() {
    let size = Dimension { width: 7, height: 5 };
    let mut walk = size.into_iter();
    let mut count = 0;
    while let Some(pos) = walk.next() {
        assert_eq!(size.offset(pos), count);
        count += 1;
    }
    assert_eq!(count, size.number());
}

#[test]
fn positions_add_by_component() {
    let a = Position { x: 3, y: 40 };
    let b = Position { x: 10, y: 2 };
    assert_eq!(a.plus(b), Position { x: 13, y: 42 });
    assert_eq!(b.plus(a), a.plus(b));
    assert_eq!(a.plus(Position::default()), a);
    assert_eq!(
        Position { x: 65535, y: 0 }.plus(Position { x: 0, y: 65535 }),
        Position { x: 65535, y: 65535 }
    );
}

#[test]
fn positions_subtract_by_component() {
    let a = Position { x: 13, y: 42 };
    let b = Position { x: 10, y: 2 };
    assert_eq!(a.minus(b), Position { x: 3, y: 40 });
    assert_eq!(a.minus(Position::default()), a);
    assert_eq!(a.minus(a), Position::default());
    assert_eq!(a.minus(b).plus(b), a);
    // The row does not come from the column.
    assert_eq!(Position { x: 9, y: 4 }.minus(Position { x: 1, y: 1 }), Position { x: 8, y: 3 });
}
