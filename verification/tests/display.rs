use entropic::draw::{CellColor, CharCell, Color, Drawable, TerminalState};
use entropic::state::{Dimension, Position};

fn size(width: u16, height: u16) -> Dimension {
    Dimension { width, height }
}

fn at(x: u16, y: u16) -> Position {
    Position { x, y }
}

fn bytes_of<D: Drawable>(item: &D) -> Vec<u8> {
    let mut out = b">".to_vec();
    item.draw(&mut out);
    assert_eq!(out[0], b'>');
    out[1..].to_vec()
}

/// A canvas whose blank frame was painted and confirmed.
fn settled(width: u16, height: u16) -> TerminalState {
    let mut state = TerminalState::new(size(width, height));
    state.redraw(size(width, height));
    state.confirm(true);
    state
}

#[test]
fn colour_constructors() {
    assert_eq!(Color::new(1, 2, 3), Color { r: 1, g: 2, b: 3 });
    assert_eq!(Color::gray(40), Color { r: 40, g: 40, b: 40 });
}

#[test]
fn cell_colour_builders() {
    let red = Color::new(255, 0, 0);
    let blue = Color::new(0, 0, 255);
    assert_eq!(CellColor::none(), CellColor { bg: None, fg: None });
    assert_eq!(CellColor::default(), CellColor::none());
    assert_eq!(CellColor::none().bg(red), CellColor { bg: Some(red), fg: None });
    assert_eq!(CellColor::none().fg(blue), CellColor { bg: None, fg: Some(blue) });
    assert_eq!(CellColor::none().bg(red).fg(blue), CellColor { bg: Some(red), fg: Some(blue) });
    assert_eq!(CellColor::none().bg(red).bg(blue), CellColor { bg: Some(blue), fg: None });
    let mut both = CellColor::none().bg(red).fg(blue);
    both.clear();
    assert_eq!(both, CellColor::none());
}

#[test]
fn cell_builders() {
    let red = Color::new(255, 0, 0);
    let blue = Color::new(0, 0, 255);
    assert_eq!(CharCell::new('x'), CharCell { color: CellColor::none(), char: 'x' });
    assert_eq!(CharCell::default(), CharCell::new(' '));
    assert_eq!(
        CharCell::new('x').bg(red).fg(blue),
        CharCell { color: CellColor { bg: Some(red), fg: Some(blue) }, char: 'x' }
    );
    assert_eq!(
        CharCell::new('x').bg(red).color(CellColor::none().fg(blue)),
        CharCell { color: CellColor { bg: None, fg: Some(blue) }, char: 'x' }
    );
    let mut cell = CharCell::new('x').bg(red);
    cell.clear();
    assert_eq!(cell, CharCell::default());
}

#[test]
fn a_position_is_drawn_counting_from_one() {
    assert_eq!(bytes_of(&at(0, 0)), b"\x1b[1;1H");
    assert_eq!(bytes_of(&at(9, 4)), b"\x1b[5;10H");
    assert_eq!(bytes_of(&at(65535, 65535)), b"\x1b[65536;65536H");
}

#[test]
fn colours_are_drawn_background_first() {
    assert_eq!(bytes_of(&CellColor::none()), b"");
    assert_eq!(bytes_of(&CellColor::none().bg(Color::new(1, 20, 255))), b"\x1b[48;2;1;20;255m");
    assert_eq!(bytes_of(&CellColor::none().fg(Color::new(0, 0, 0))), b"\x1b[38;2;0;0;0m");
    assert_eq!(
        bytes_of(&CellColor::none().fg(Color::gray(7)).bg(Color::gray(100))),
        b"\x1b[48;2;100;100;100m\x1b[38;2;7;7;7m"
    );
}

#[test]
fn a_cell_is_drawn_as_colours_character_and_reset() {
    assert_eq!(bytes_of(&CharCell::new('a')), b"a\x1b[0m");
    assert_eq!(
        bytes_of(&CharCell::new('a').bg(Color::new(1, 2, 3))),
        b"\x1b[48;2;1;2;3ma\x1b[0m"
    );
}

#[test]
fn characters_are_drawn_in_utf8() {
    for c in ['\0', 'a', '\u{7f}', '\u{80}', 'é', '\u{7ff}', '\u{800}', '╺', '\u{ffff}', '\u{10000}', '😀', '\u{10ffff}'] {
        let mut expected = c.to_string().into_bytes();
        expected.extend_from_slice(b"\x1b[0m");
        assert_eq!(bytes_of(&CharCell::new(c)), expected);
    }
}

#[test]
fn a_new_canvas_is_blank() {
    let mut state = TerminalState::new(size(2, 2));
    assert_eq!(state.size(), size(2, 2));
    assert_eq!(
        state.redraw(size(2, 2)),
        b"\x1b[3J\x1b[1;1H \x1b[0m \x1b[0m\x1b[2;1H \x1b[0m \x1b[0m\x1b[0m\x1b[1;1H"
    );
}

#[test]
fn a_repaint_writes_every_row_from_its_first_column() {
    let mut state = TerminalState::new(size(2, 2));
    state.put(at(0, 0), CharCell::new('a'));
    state.put(at(1, 0), CharCell::new('b').bg(Color::new(1, 2, 3)));
    state.put(at(0, 1), CharCell::new('c').fg(Color::new(4, 5, 6)));
    assert_eq!(
        state.redraw(size(2, 2)),
        b"\x1b[3J\x1b[1;1Ha\x1b[0m\x1b[48;2;1;2;3mb\x1b[0m\x1b[2;1H\x1b[38;2;4;5;6mc\x1b[0m \x1b[0m\x1b[0m\x1b[1;1H"
    );
}

#[test]
fn a_repaint_of_a_part_leaves_the_rest_out() {
    let mut state = TerminalState::new(size(3, 3));
    state.put_text(at(0, 0), CellColor::none(), "abcdefghi");
    assert_eq!(
        state.redraw(size(2, 1)),
        b"\x1b[3J\x1b[1;1Ha\x1b[0mb\x1b[0m\x1b[0m\x1b[1;1H"
    );
    assert_eq!(
        state.redraw(size(1, 2)),
        b"\x1b[3J\x1b[1;1Ha\x1b[0m\x1b[2;1Hd\x1b[0m\x1b[0m\x1b[1;1H"
    );
    assert_eq!(state.redraw(size(0, 2)), b"\x1b[3J\x1b[1;1H\x1b[2;1H\x1b[0m\x1b[1;1H");
    assert_eq!(state.redraw(size(2, 0)), b"\x1b[3J\x1b[0m\x1b[1;1H");
}

#[test]
fn a_part_larger_than_the_canvas_is_cut_to_it() {
    let mut state = TerminalState::new(size(2, 1));
    state.put_text(at(0, 0), CellColor::none(), "ab");
    let whole = state.redraw(size(2, 1));
    assert_eq!(state.redraw(size(500, 500)), whole);
    assert_eq!(whole, b"\x1b[3J\x1b[1;1Ha\x1b[0mb\x1b[0m\x1b[0m\x1b[1;1H");
}

#[test]
fn a_canvas_without_cells_paints_nothing_but_the_frame() {
    let mut state = TerminalState::new(size(0, 0));
    assert_eq!(state.redraw(size(10, 10)), b"\x1b[3J\x1b[0m\x1b[1;1H");
    state.confirm(true);
    assert_eq!(state.draw(size(10, 10)), b"");
}

#[test]
fn a_first_draw_is_a_repaint() {
    let mut state = TerminalState::new(size(2, 1));
    state.put(at(1, 0), CharCell::new('z'));
    let drawn = state.draw(size(2, 1));
    assert_eq!(drawn, b"\x1b[3J\x1b[1;1H \x1b[0mz\x1b[0m\x1b[0m\x1b[1;1H");
    assert_eq!(state.redraw(size(2, 1)), drawn);
}

#[test]
fn repainting_twice_gives_the_same_bytes() {
    let mut state = TerminalState::new(size(4, 3));
    state.put_text(at(1, 1), CellColor::none().bg(Color::gray(9)), "hi");
    let first = state.redraw(size(4, 3));
    let second = state.redraw(size(4, 3));
    assert_eq!(first, second);
    state.confirm(true);
    assert_eq!(state.redraw(size(4, 3)), first);
}

#[test]
fn after_a_written_repaint_a_draw_sends_nothing() {
    let mut state = TerminalState::new(size(4, 3));
    state.put_text(at(1, 1), CellColor::none().bg(Color::gray(9)), "hi");
    state.redraw(size(4, 3));
    state.confirm(true);
    assert_eq!(state.draw(size(4, 3)), b"");
    state.confirm(true);
    assert_eq!(state.draw(size(4, 3)), b"");
}

#[test]
fn one_changed_cell_is_one_move_and_one_cell() {
    for (width, height) in [(1, 1), (3, 2), (80, 24), (320, 96)] {
        let mut state = settled(width, height);
        let pos = at(width - 1, height / 2);
        state.put(pos, CharCell::new('x').bg(Color::new(1, 2, 3)));
        let expected = format!("\x1b[{};{}H\x1b[48;2;1;2;3mx\x1b[0m", pos.y + 1, pos.x + 1);
        assert_eq!(state.draw(size(width, height)), expected.as_bytes());
    }
}

#[test]
fn changed_cells_are_drawn_row_by_row() {
    let mut state = settled(3, 3);
    state.put(at(2, 2), CharCell::new('c'));
    state.put(at(0, 1), CharCell::new('b'));
    state.put(at(1, 0), CharCell::new('a'));
    assert_eq!(
        state.draw(size(3, 3)),
        b"\x1b[1;2Ha\x1b[0m\x1b[2;1Hb\x1b[0m\x1b[3;3Hc\x1b[0m"
    );
}

#[test]
fn a_cell_put_back_as_it_was_is_not_drawn() {
    let mut state = settled(3, 3);
    state.put(at(1, 1), CharCell::new('a'));
    state.put(at(1, 1), CharCell::default());
    assert_eq!(state.draw(size(3, 3)), b"");
}

#[test]
fn a_frame_that_was_not_written_is_handed_out_again() {
    let mut state = settled(3, 3);
    state.put(at(1, 1), CharCell::new('a'));
    let patch = state.draw(size(3, 3));
    assert_eq!(patch, b"\x1b[2;2Ha\x1b[0m");
    state.confirm(false);
    assert_eq!(state.draw(size(3, 3)), patch);
    state.confirm(true);
    assert_eq!(state.draw(size(3, 3)), b"");
}

#[test]
fn a_frame_that_was_not_confirmed_is_handed_out_again() {
    let mut state = settled(3, 3);
    state.put(at(1, 1), CharCell::new('a'));
    let patch = state.draw(size(3, 3));
    assert_eq!(state.draw(size(3, 3)), patch);
}

#[test]
fn a_repaint_that_was_not_written_leaves_no_snapshot() {
    let mut state = TerminalState::new(size(2, 1));
    let frame = state.redraw(size(2, 1));
    state.confirm(false);
    assert_eq!(state.draw(size(2, 1)), frame);
}

#[test]
fn confirming_twice_is_confirming_once() {
    let mut state = settled(2, 1);
    state.put(at(0, 0), CharCell::new('a'));
    state.draw(size(2, 1));
    state.confirm(true);
    state.confirm(false);
    assert_eq!(state.draw(size(2, 1)), b"");
}

#[test]
fn the_snapshot_is_taken_when_the_frame_is_handed_out() {
    let mut state = settled(2, 1);
    state.put(at(0, 0), CharCell::new('a'));
    assert_eq!(state.draw(size(2, 1)), b"\x1b[1;1Ha\x1b[0m");
    // A change made while the frame is on its way is not part of it.
    state.put(at(1, 0), CharCell::new('b'));
    state.confirm(true);
    assert_eq!(state.draw(size(2, 1)), b"\x1b[1;2Hb\x1b[0m");
}

#[test]
fn a_draw_of_a_part_leaves_the_rest_for_later() {
    let mut state = settled(3, 3);
    state.put(at(0, 0), CharCell::new('a'));
    state.put(at(2, 2), CharCell::new('c'));
    assert_eq!(state.draw(size(2, 2)), b"\x1b[1;1Ha\x1b[0m");
    state.confirm(true);
    assert_eq!(state.draw(size(2, 2)), b"");
    state.confirm(true);
    assert_eq!(state.draw(size(3, 3)), b"\x1b[3;3Hc\x1b[0m");
}

#[test]
fn a_written_repaint_of_a_part_counts_for_the_whole_canvas() {
    let mut state = TerminalState::new(size(3, 3));
    state.put(at(2, 2), CharCell::new('c'));
    state.redraw(size(1, 1));
    state.confirm(true);
    assert_eq!(state.draw(size(3, 3)), b"");
}

#[test]
fn text_is_put_one_cell_for_each_character() {
    let mut state = settled(4, 2);
    let color = CellColor::none().fg(Color::new(9, 8, 7));
    state.put_text(at(1, 0), color, "hé");
    assert_eq!(
        state.draw(size(4, 2)),
        "\x1b[1;2H\x1b[38;2;9;8;7mh\x1b[0m\x1b[1;3H\x1b[38;2;9;8;7mé\x1b[0m".as_bytes()
    );
}

#[test]
fn text_goes_on_into_the_next_row() {
    let mut state = settled(3, 2);
    state.put_text(at(2, 0), CellColor::none(), "ab");
    assert_eq!(state.draw(size(3, 2)), b"\x1b[1;3Ha\x1b[0m\x1b[2;1Hb\x1b[0m");
}

#[test]
fn text_may_fill_the_canvas_to_its_end() {
    let mut state = settled(2, 2);
    state.put_text(at(0, 0), CellColor::none(), "abcd");
    state.put_text(at(1, 1), CellColor::none(), "z");
    state.put_text(at(1, 1), CellColor::none(), "");
    assert_eq!(
        state.draw(size(2, 2)),
        b"\x1b[1;1Ha\x1b[0m\x1b[1;2Hb\x1b[0m\x1b[2;1Hc\x1b[0m\x1b[2;2Hz\x1b[0m"
    );
}

#[test]
fn put_overwrites_the_cell() {
    let mut state = settled(2, 2);
    state.put(at(1, 1), CharCell::new('a'));
    state.put(at(1, 1), CharCell::new('b'));
    assert_eq!(state.draw(size(2, 2)), b"\x1b[2;2Hb\x1b[0m");
}

#[test]
fn put_goes_by_the_index_of_the_position() {
    let mut state = settled(2, 2);
    // Column 2 of row 0 does not exist: its index is that of column 0 of row 1.
    state.put(at(2, 0), CharCell::new('a'));
    assert_eq!(state.draw(size(2, 2)), b"\x1b[2;1Ha\x1b[0m");
}

#[test]
fn clear_makes_the_cells_of_the_rectangle_blank() {
    let mut state = TerminalState::new(size(3, 3));
    state.put_text(at(0, 0), CellColor::none(), "abcdefghi");
    state.redraw(size(3, 3));
    state.confirm(true);
    state.clear(size(2, 2));
    assert_eq!(
        state.draw(size(3, 3)),
        b"\x1b[1;1H \x1b[0m\x1b[1;2H \x1b[0m\x1b[2;1H \x1b[0m\x1b[2;2H \x1b[0m"
    );
    state.confirm(true);
    assert_eq!(
        state.redraw(size(3, 3)),
        b"\x1b[3J\x1b[1;1H \x1b[0m \x1b[0mc\x1b[0m\x1b[2;1H \x1b[0m \x1b[0mf\x1b[0m\x1b[3;1Hg\x1b[0mh\x1b[0mi\x1b[0m\x1b[0m\x1b[1;1H"
    );
}

#[test]
fn clear_stays_on_the_canvas() {
    let mut state = TerminalState::new(size(2, 2));
    state.put_text(at(0, 0), CellColor::none().bg(Color::gray(1)), "abcd");
    state.redraw(size(2, 2));
    state.confirm(true);
    state.clear(size(3, 1));
    assert_eq!(state.draw(size(2, 2)), b"\x1b[1;1H \x1b[0m\x1b[1;2H \x1b[0m");
    state.confirm(true);
    state.clear(size(1000, 1000));
    assert_eq!(state.draw(size(2, 2)), b"\x1b[2;1H \x1b[0m\x1b[2;2H \x1b[0m");
    state.confirm(true);
    state.clear(size(0, 0));
    assert_eq!(state.draw(size(2, 2)), b"");
}
