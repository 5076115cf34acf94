use entropic::ansi::{ansi, push_bytes, push_cursor_to, push_decimal, push_private_mode, push_truecolor};
use entropic::term::{ActiveMode, Mode, ModeStack};
use termios::Termios;

const ALL: [Mode; 6] = [
    Mode::Raw,
    Mode::MouseInput,
    Mode::HideCursor,
    Mode::NoWrap,
    Mode::AltScreen,
    Mode::TerminalResizes,
];

#[test]
fn entry_sequences() {
    assert_eq!(Mode::AltScreen.enter_sequence(), b"\x1b[?1049h");
    assert_eq!(Mode::HideCursor.enter_sequence(), b"\x1b[?25l");
    assert_eq!(Mode::MouseInput.enter_sequence(), b"\x1b[?1003h\x1b[?1006h");
    assert_eq!(Mode::NoWrap.enter_sequence(), b"\x1b[?7l");
    assert_eq!(Mode::Raw.enter_sequence(), b"");
    assert_eq!(Mode::TerminalResizes.enter_sequence(), b"");
}

#[test]
fn exit_sequences() {
    assert_eq!(Mode::AltScreen.exit_sequence(), b"\x1b[?1049l");
    assert_eq!(Mode::HideCursor.exit_sequence(), b"\x1b[?25h");
    assert_eq!(Mode::MouseInput.exit_sequence(), b"\x1b[?1003l\x1b[?1006l");
    assert_eq!(Mode::NoWrap.exit_sequence(), b"\x1b[?7h");
    assert_eq!(Mode::Raw.exit_sequence(), b"");
    assert_eq!(Mode::TerminalResizes.exit_sequence(), b"");
}

#[test]
fn leaving_a_mode_is_idempotent() {
    for mode in ALL {
        assert_eq!(mode.exit_sequence(), mode.exit_sequence());
    }
}

#[test]
fn an_active_mode_knows_its_mode() {
    assert_eq!(ActiveMode::Raw(7u32).mode(), Mode::Raw);
    assert_eq!(ActiveMode::<u32>::MouseInput.mode(), Mode::MouseInput);
    assert_eq!(ActiveMode::<u32>::HideCursor.mode(), Mode::HideCursor);
    assert_eq!(ActiveMode::<u32>::NoWrap.mode(), Mode::NoWrap);
    assert_eq!(ActiveMode::<u32>::AltScreen.mode(), Mode::AltScreen);
    assert_eq!(ActiveMode::<u32>::TerminalResizes.mode(), Mode::TerminalResizes);
}

#[test]
fn entering_hands_out_the_entry_sequence() {
    let mut stack: ModeStack<u32> = ModeStack::new();
    assert_eq!(stack.depth(), 0);
    assert_eq!(stack.enter(ActiveMode::Raw(1)), b"");
    assert_eq!(stack.enter(ActiveMode::MouseInput), b"\x1b[?1003h\x1b[?1006h");
    assert_eq!(stack.enter(ActiveMode::HideCursor), b"\x1b[?25l");
    assert_eq!(stack.enter(ActiveMode::NoWrap), b"\x1b[?7l");
    assert_eq!(stack.enter(ActiveMode::AltScreen), b"\x1b[?1049h");
    assert_eq!(stack.enter(ActiveMode::TerminalResizes), b"");
    assert_eq!(stack.depth(), 6);
}

#[test]
fn modes_are_left_in_the_reverse_of_their_entry() {
    let mut stack: ModeStack<&str> = ModeStack::new();
    stack.enter(ActiveMode::Raw("attributes as found"));
    stack.enter(ActiveMode::MouseInput);
    stack.enter(ActiveMode::AltScreen);
    let released = stack.release();
    let modes: Vec<Mode> = released.iter().map(|active| active.mode()).collect();
    assert_eq!(modes, vec![Mode::AltScreen, Mode::MouseInput, Mode::Raw]);
    let exits: Vec<Vec<u8>> = modes.iter().map(|mode| mode.exit_sequence()).collect();
    assert_eq!(
        exits,
        vec![b"\x1b[?1049l".to_vec(), b"\x1b[?1003l\x1b[?1006l".to_vec(), b"".to_vec()]
    );
}

#[test]
fn raw_mode_hands_back_the_attributes_it_was_given() {
    let mut stack: ModeStack<Vec<u8>> = ModeStack::new();
    stack.enter(ActiveMode::Raw(vec![1, 2, 3]));
    stack.enter(ActiveMode::HideCursor);
    let released = stack.release();
    assert_eq!(released.len(), 2);
    match &released[1] {
        ActiveMode::Raw(attrs) => assert_eq!(attrs, &vec![1, 2, 3]),
        other => panic!("the innermost mode is {:?}", other),
    }
}

#[test]
fn every_mode_is_left_once() {
    let mut stack: ModeStack<u8> = ModeStack::new();
    stack.enter(ActiveMode::NoWrap);
    stack.enter(ActiveMode::NoWrap);
    assert_eq!(stack.release().len(), 2);
    assert_eq!(stack.depth(), 0);
    assert_eq!(stack.release().len(), 0);
    stack.enter(ActiveMode::AltScreen);
    assert_eq!(stack.release().len(), 1);
}

#[test]
fn the_full_stack_unwinds_from_the_alternate_screen_down() {
    let mut stack: ModeStack<u8> = ModeStack::new();
    for active in [
        ActiveMode::Raw(0),
        ActiveMode::MouseInput,
        ActiveMode::HideCursor,
        ActiveMode::NoWrap,
        ActiveMode::AltScreen,
    ] {
        stack.enter(active);
    }
    let mut written = Vec::new();
    for active in stack.release() {
        written.extend(active.mode().exit_sequence());
    }
    assert_eq!(written, b"\x1b[?1049l\x1b[?7h\x1b[?25h\x1b[?1003l\x1b[?1006l");
}

#[test]
fn decimal_digits() {
    for n in [0u32, 1, 9, 10, 11, 99, 100, 255, 1049, 65536, 4294967295] {
        let mut out = b"x".to_vec();
        push_decimal(&mut out, n);
        assert_eq!(out, format!("x{}", n).into_bytes());
    }
}

#[test]
fn sequence_builders_append() {
    let mut out = b"x".to_vec();
    push_private_mode(&mut out, 1049, true);
    push_private_mode(&mut out, 7, false);
    push_cursor_to(&mut out, 3, 12);
    push_truecolor(&mut out, 38, 1, 22, 255);
    push_bytes(&mut out, b"tail");
    assert_eq!(out, b"x\x1b[?1049h\x1b[?7l\x1b[3;12H\x1b[38;2;1;22;255mtail");
}

#[test]
fn writer_toggles() {
    let mut term = ansi(Vec::new());
    term.alt_screen(true);
    assert_eq!(term.take(), b"\x1b[?1049h");
    term.alt_screen(false);
    assert_eq!(term.take(), b"\x1b[?1049l");
    term.cursor(false);
    assert_eq!(term.take(), b"\x1b[?25l");
    term.cursor(true);
    assert_eq!(term.take(), b"\x1b[?25h");
    term.mouse_tracking(true);
    assert_eq!(term.take(), b"\x1b[?1003h\x1b[?1006h");
    term.mouse_tracking(false);
    assert_eq!(term.take(), b"\x1b[?1003l\x1b[?1006l");
}

#[test]
fn writer_cursor() {
    let mut term = ansi(Vec::new());
    term.cursor_push();
    assert_eq!(term.take(), b"\x1b[s");
    term.cursor_pop();
    assert_eq!(term.take(), b"\x1b[u");
    term.cursor_move(12, 3);
    assert_eq!(term.take(), b"\x1b[3;12H");
    term.cursor_move(0, 4294967295);
    assert_eq!(term.take(), b"\x1b[4294967295;0H");
}

#[test]
fn writer_writes_text_at_a_place_and_comes_back() {
    let mut term = ansi(Vec::new());
    term.write_at(5, 2, "h╺llo");
    assert_eq!(term.take(), "\x1b[s\x1b[2;5Hh╺llo\x1b[u".as_bytes());
    term.write_at(1, 1, "");
    assert_eq!(term.take(), b"\x1b[s\x1b[1;1H\x1b[u");
}

#[test]
fn writer_appends_to_what_it_was_given_and_starts_over_when_taken() {
    let mut term = ansi(b"before".to_vec());
    term.write(b" raw ");
    term.query_size();
    assert_eq!(term.take(), b"before raw \x1b[18t");
    assert_eq!(term.take(), b"");
    term.cursor_push();
    term.cursor_pop();
    assert_eq!(term.take(), b"\x1b[s\x1b[u");
}

#[test]
fn writer_reset_leaves_mouse_screen_and_cursor_in_that_order() {
    let mut term = ansi(Vec::new());
    term.reset();
    assert_eq!(term.take(), b"\x1b[?1003l\x1b[?1006l\x1b[?1049l\x1b[?25h");
}

#[test]
fn raw_mode_on_a_terminal_makes_raw_attributes_and_keeps_those_found() {
    // Attributes can only be read from a terminal. Where none of the
    // standard streams is one, there is nothing to try.
    let found = match (0..3).find_map(|fd| Termios::from_fd(fd).ok()) {
        Some(found) => found,
        None => return,
    };
    let mut expected = found;
    termios::cfmakeraw(&mut expected);

    let mut stack: ModeStack<Termios> = ModeStack::new();
    let raw = stack.enter_raw(found);
    // What is handed out for setting is what raw mode makes of the
    // attributes found, not the attributes found.
    assert_eq!(raw, expected);
    if found != expected {
        assert_ne!(raw, found);
    }
    // The same attributes give the same raw attributes.
    assert_eq!(ModeStack::new().enter_raw(found), raw);

    stack.enter(ActiveMode::AltScreen);
    assert_eq!(stack.depth(), 2);
    let released = stack.release();
    assert_eq!(released[0].mode(), Mode::AltScreen);
    match &released[1] {
        ActiveMode::Raw(kept) => assert_eq!(*kept, found),
        other => panic!("the innermost mode is {:?}", other),
    }
}
