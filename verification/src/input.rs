//! Decoding of the bytes a terminal sends into key, mouse and resize events.
//!
//! The grammar is given by [`recognize`]. Whatever it does not recognise is
//! handed back whole as [`Event::UnknownByteSequence`].

use vstd::prelude::*;
use vstd::slice::{slice_subrange, slice_to_vec};
use crate::ansi::{csi, decimal};
use crate::state::{Dimension, Position};

verus! {

#[derive(Clone, Copy, Debug, PartialEq, Eq, Structural)]
pub enum MouseButton {
    Left,
    Middle,
    Right,
}

#[derive(Clone, Copy, Debug, PartialEq, Eq, Structural)]
pub enum MouseWheelDirection {
    Up,
    Down,
}

/// The modifier keys held with a key or mouse event, as one closed set.
#[derive(Clone, Copy, Debug, PartialEq, Eq, Structural)]
pub enum Modifiers {
    Unmodified,
    Shift,
    Alt,
    AltShift,
    Ctrl,
    CtrlShift,
    CtrlAlt,
    CtrlShiftAlt,
}

#[derive(Clone, Copy, Debug, PartialEq, Eq, Structural)]
pub enum MouseAction {
    Press,
    Release,
    Drag,
}

#[derive(Clone, Copy, Debug, PartialEq, Eq, Structural)]
pub enum Arrow {
    Up,
    Down,
    Right,
    Left,
}

/// One decoded input event.
///
/// `Enter` belongs to the taxonomy but the decoder never produces it: a
/// carriage return arrives as byte 13 and decodes, like every control byte,
/// to a `Press` with `Ctrl`.
#[derive(Debug, PartialEq, Eq)]
pub enum Event {
    Enter,
    Space,
    Tab,
    Escape,
    Backspace,
    Home,
    End,
    Insert,
    Delete,
    PgUp,
    PgDown,
    Arrow(Arrow, Modifiers),
    Press(char, Modifiers),
    Mouse(MouseAction, MouseButton, Position, Modifiers),
    MouseMotion(Position, Modifiers),
    MouseWheel(MouseWheelDirection, Position, Modifiers),
    TerminalResize(Dimension),
    UnknownByteSequence(Vec<u8>),
}

/// The value that stands for a numeric field that could not be read.
pub const INVALID: u16 = 1000;

/// ASCII `0` to `9`.
pub open spec fn is_digit(b: u8) -> bool {
    48 <= b <= 57
}

/// The number that a run of ASCII digits denotes, most significant first.
pub open spec fn digits_value(s: Seq<u8>) -> int
    decreases s.len(),
{
    if s.len() == 0 {
        0
    } else {
        digits_value(s.drop_last()) * 10 + (s.last() - 48)
    }
}

/// The value of a numeric field: the number it denotes where it is one to
/// three decimal digits, else [`INVALID`].
pub open spec fn decimal_field(s: Seq<u8>) -> int {
    if 1 <= s.len() <= 3 && (forall|i: int| 0 <= i < s.len() ==> is_digit(#[trigger] s[i])) {
        digits_value(s)
    } else {
        INVALID as int
    }
}

/// A field of at most three digits stays below [`INVALID`].
pub proof fn lemma_digits_value_bound(s: Seq<u8>)
    requires
        s.len() <= 3,
        forall|i: int| 0 <= i < s.len() ==> is_digit(#[trigger] s[i]),
    ensures
        0 <= digits_value(s),
        s.len() == 0 ==> digits_value(s) == 0,
        s.len() == 1 ==> digits_value(s) <= 9,
        s.len() == 2 ==> digits_value(s) <= 99,
        s.len() == 3 ==> digits_value(s) <= 999,
    decreases s.len(),
{
    if s.len() > 0 {
        lemma_digits_value_bound(s.drop_last());
    }
}

/// Reads a numeric field of one to three decimal digits.
pub fn parse_decimal(bytes: &[u8]) -> (res: u16)
    ensures
        res == decimal_field(bytes@),
        res <= INVALID,
{
    if bytes.len() > 3 || bytes.len() == 0 {
        return INVALID;
    }
    let mut res: u16 = 0;
    let mut i: usize = 0;
    while i < bytes.len()
        invariant
            i <= bytes.len() <= 3,
            forall|k: int| 0 <= k < i ==> is_digit(#[trigger] bytes@[k]),
            res == digits_value(bytes@.subrange(0, i as int)),
            res <= 999,
            i <= 2 ==> res <= 99,
        decreases bytes.len() - i,
    {
        let byte = bytes[i];
        if byte > 47 && byte < 58 {
            proof {
                let before = bytes@.subrange(0, i as int);
                let after = bytes@.subrange(0, i as int + 1);
                assert(after.drop_last() =~= before);
                lemma_digits_value_bound(before);
                lemma_digits_value_bound(after);
            }
            res = res * 10 + (byte - 48) as u16;
        } else {
            return INVALID;
        }
        i += 1;
    }
    assert(bytes@.subrange(0, i as int) =~= bytes@);
    res
}

/// The field separator `;`.
pub const SEPARATOR: u8 = 59;

/// Whether `b` ends a numeric field: a separator or one of the two final bytes.
pub open spec fn is_stop(b: u8, until: u8, until2: u8) -> bool {
    b == until || b == until2 || b == SEPARATOR
}

/// The index of the first byte at or after `from` that ends a field, or the
/// length of `bytes` where there is none.
pub open spec fn field_end(bytes: Seq<u8>, until: u8, until2: u8, from: int) -> int
    decreases bytes.len() - from,
{
    if from >= bytes.len() {
        bytes.len() as int
    } else if is_stop(bytes[from], until, until2) {
        from
    } else {
        field_end(bytes, until, until2, from + 1)
    }
}

/// What [`read_params`] yields where the fields cannot be read.
pub open spec fn invalid_params() -> Seq<u16> {
    seq![INVALID, INVALID, INVALID]
}

/// Reads the fields of `bytes` from the field that starts at `start` on,
/// `idx` fields having been read into `acc` already. See [`params`].
pub open spec fn params_from(
    bytes: Seq<u8>,
    until: u8,
    until2: u8,
    start: int,
    idx: int,
    acc: Seq<u16>,
) -> (Seq<u16>, int)
    decreases bytes.len() - start,
{
    let end = field_end(bytes, until, until2, start);
    if start < 0 || start > bytes.len() {
        (invalid_params(), bytes.len() as int)
    } else if end - start > 3 {
        (invalid_params(), start + 4)
    } else if end >= bytes.len() {
        (invalid_params(), bytes.len() as int)
    } else if idx >= 3 {
        (invalid_params(), end + 1)
    } else {
        let read = acc.update(idx, decimal_field(bytes.subrange(start, end)) as u16);
        if bytes[end] == until || bytes[end] == until2 {
            (read, end + 1)
        } else {
            proof {
                lemma_field_end_bounds(bytes, until, until2, start);
            }
            params_from(bytes, until, until2, end + 1, idx + 1, read)
        }
    }
}

/// The numeric fields at the head of `bytes`, and how many bytes they take.
///
/// Fields are separated by `;` and the list ends at the first `until` or
/// `until2`, which is counted among the bytes taken. Up to three fields are
/// read, each by [`decimal_field`]; a field that is not there stays 0.
/// The whole result is [`invalid_params`] where a field is longer than three
/// bytes (the count then ends at its fourth byte), where there is a fourth
/// field (the count ends at the byte that closes it), or where the list
/// never ends (all bytes are counted).
pub open spec fn params(bytes: Seq<u8>, until: u8, until2: u8) -> (Seq<u16>, int) {
    params_from(bytes, until, until2, 0, 0, seq![0u16, 0u16, 0u16])
}

/// Scanning on from inside a field finds the same end as from its start.
pub proof fn lemma_field_end_skip(bytes: Seq<u8>, until: u8, until2: u8, from: int, to: int)
    requires
        0 <= from <= to <= bytes.len(),
        forall|k: int| from <= k < to ==> !is_stop(#[trigger] bytes[k], until, until2),
    ensures
        field_end(bytes, until, until2, from) == field_end(bytes, until, until2, to),
        to <= field_end(bytes, until, until2, to) <= bytes.len(),
    decreases bytes.len() - from,
{
    if from < to {
        lemma_field_end_skip(bytes, until, until2, from + 1, to);
    } else {
        lemma_field_end_bounds(bytes, until, until2, to);
    }
}

/// A field ends at or after its start, within the input, and where it ends
/// before the end of the input, it ends at a byte that ends a field.
pub proof fn lemma_field_end_bounds(bytes: Seq<u8>, until: u8, until2: u8, from: int)
    requires
        0 <= from <= bytes.len(),
    ensures
        from <= field_end(bytes, until, until2, from) <= bytes.len(),
        field_end(bytes, until, until2, from) < bytes.len() ==> is_stop(
            bytes[field_end(bytes, until, until2, from)],
            until,
            until2,
        ),
    decreases bytes.len() - from,
{
    if from < bytes.len() && !is_stop(bytes[from], until, until2) {
        lemma_field_end_bounds(bytes, until, until2, from + 1);
    }
}

/// The fields read are three numbers of at most [`INVALID`], and the bytes
/// taken are within the input: at least one where there is any input.
pub proof fn lemma_params_from_bounds(
    bytes: Seq<u8>,
    until: u8,
    until2: u8,
    start: int,
    idx: int,
    acc: Seq<u16>,
)
    requires
        0 <= start <= bytes.len(),
        0 <= idx,
        acc.len() == 3,
    ensures
        params_from(bytes, until, until2, start, idx, acc).0.len() == 3,
        start <= params_from(bytes, until, until2, start, idx, acc).1 <= bytes.len(),
        start < bytes.len() ==> start < params_from(bytes, until, until2, start, idx, acc).1,
    decreases bytes.len() - start,
{
    let end = field_end(bytes, until, until2, start);
    lemma_field_end_bounds(bytes, until, until2, start);
    if end - start <= 3 && end < bytes.len() && idx < 3 {
        let read = acc.update(idx, decimal_field(bytes.subrange(start, end)) as u16);
        if !(bytes[end] == until || bytes[end] == until2) {
            lemma_params_from_bounds(bytes, until, until2, end + 1, idx + 1, read);
        }
    }
}

/// Reads up to three numeric fields from the head of `bytes`: see [`params`].
pub fn read_params(bytes: &[u8], until: u8, until2: u8) -> (res: ([u16; 3], usize))
    ensures
        res.0@ == params(bytes@, until, until2).0,
        res.1 == params(bytes@, until, until2).1,
        res.1 <= bytes.len(),
        bytes.len() > 0 ==> res.1 >= 1,
{
    let mut res: [u16; 3] = [0; 3];
    let mut buf: [u8; 3] = [0; 3];
    let mut buf_idx: usize = 0;
    let mut res_idx: usize = 0;
    let mut read: usize = 0;
    proof {
        assert(res@ =~= seq![0u16, 0u16, 0u16]);
        lemma_params_from_bounds(bytes@, until, until2, 0, 0, res@);
    }
    while read < bytes.len()
        invariant
            read <= bytes.len(),
            buf_idx <= 3,
            buf_idx <= read,
            res_idx <= 3,
            buf@.subrange(0, buf_idx as int) =~= bytes@.subrange(read - buf_idx, read as int),
            forall|k: int|
                read - buf_idx <= k < read ==> !is_stop(#[trigger] bytes@[k], until, until2),
            params_from(bytes@, until, until2, read - buf_idx, res_idx as int, res@) == params(
                bytes@,
                until,
                until2,
            ),
        decreases bytes.len() - read,
    {
        let byte = bytes[read];
        let ghost start = read - buf_idx;
        proof {
            lemma_field_end_skip(bytes@, until, until2, start, read as int);
        }
        read += 1;
        if byte == until || byte == until2 {
            if res_idx >= 3 {
                let invalid: [u16; 3] = [INVALID; 3];
                assert(invalid@ =~= invalid_params());
                return (invalid, read);
            }
            let value = parse_decimal(slice_subrange(buf.as_slice(), 0, buf_idx));
            res[res_idx] = value;
            return (res, read);
        }
        if byte == SEPARATOR {
            if res_idx >= 3 {
                let invalid: [u16; 3] = [INVALID; 3];
                assert(invalid@ =~= invalid_params());
                return (invalid, read);
            }
            let value = parse_decimal(slice_subrange(buf.as_slice(), 0, buf_idx));
            res[res_idx] = value;
            buf_idx = 0;
            res_idx += 1;
            assert(buf@.subrange(0, 0) =~= bytes@.subrange(read as int, read as int));
        } else {
            proof {
                lemma_field_end_skip(bytes@, until, until2, start, read as int);
            }
            if buf_idx >= 3 {
                let invalid: [u16; 3] = [INVALID; 3];
                assert(invalid@ =~= invalid_params());
                return (invalid, read);
            }
            buf[buf_idx] = byte;
            buf_idx += 1;
        }
    }
    proof {
        lemma_field_end_skip(bytes@, until, until2, read - buf_idx, read as int);
    }
    let invalid: [u16; 3] = [INVALID; 3];
    assert(invalid@ =~= invalid_params());
    (invalid, read)
}

/// The escape byte that opens every sequence longer than one byte.
pub const ESC: u8 = 27;

/// The arrow that a final byte `A` to `D` names.
pub open spec fn arrow_of(byte: u8) -> Option<Arrow> {
    if byte == 65 {
        Some(Arrow::Up)
    } else if byte == 66 {
        Some(Arrow::Down)
    } else if byte == 67 {
        Some(Arrow::Right)
    } else if byte == 68 {
        Some(Arrow::Left)
    } else {
        None
    }
}

/// Reads the final byte of an arrow key.
pub fn parse_arrow(byte: u8) -> (res: Option<Arrow>)
    ensures
        res == arrow_of(byte),
{
    match byte {
        65 => Some(Arrow::Up),
        66 => Some(Arrow::Down),
        67 => Some(Arrow::Right),
        68 => Some(Arrow::Left),
        _ => None,
    }
}

/// The modifiers that a three-bit field names: bit 0 is Shift, bit 1 is Alt,
/// bit 2 is Ctrl.
pub open spec fn modifiers_of_bits(bits: int) -> Modifiers {
    if bits == 0 {
        Modifiers::Unmodified
    } else if bits == 1 {
        Modifiers::Shift
    } else if bits == 2 {
        Modifiers::Alt
    } else if bits == 3 {
        Modifiers::AltShift
    } else if bits == 4 {
        Modifiers::Ctrl
    } else if bits == 5 {
        Modifiers::CtrlShift
    } else if bits == 6 {
        Modifiers::CtrlAlt
    } else {
        Modifiers::CtrlShiftAlt
    }
}

/// The modifiers that the digit of a modified key names: the digits `2` to
/// `8` stand for one more than the three-bit field.
pub open spec fn modifiers_of(byte: u8) -> Option<Modifiers> {
    if 50 <= byte <= 56 {
        Some(modifiers_of_bits(byte - 49))
    } else {
        None
    }
}

/// Reads the modifier digit of a modified key.
pub fn parse_mods(byte: u8) -> (res: Option<Modifiers>)
    ensures
        res == modifiers_of(byte),
{
    match byte {
        50 => Some(Modifiers::Shift),
        51 => Some(Modifiers::Alt),
        52 => Some(Modifiers::AltShift),
        53 => Some(Modifiers::Ctrl),
        54 => Some(Modifiers::CtrlShift),
        55 => Some(Modifiers::CtrlAlt),
        56 => Some(Modifiers::CtrlShiftAlt),
        _ => None,
    }
}

/// The key that a byte names: for a control byte, the character 96 above it
/// with the modifiers `ctrl`; for an upper-case ASCII letter, the lower-case
/// letter with `shift`; else the byte as a character with `plain`.
pub open spec fn letter_event(byte: u8, ctrl: Modifiers, shift: Modifiers, plain: Modifiers) -> Event {
    if byte < 32 {
        Event::Press((byte + 96) as char, ctrl)
    } else if 65 <= byte <= 90 {
        Event::Press((byte + 32) as char, shift)
    } else {
        Event::Press(byte as char, plain)
    }
}

/// The event of an input of one byte.
pub open spec fn key_event(byte: u8) -> Event {
    if byte == ESC {
        Event::Escape
    } else if byte == 9 {
        Event::Tab
    } else if byte == 32 {
        Event::Space
    } else if byte == 127 {
        Event::Backspace
    } else {
        letter_event(byte, Modifiers::Ctrl, Modifiers::Shift, Modifiers::Unmodified)
    }
}

/// The event of an input of two bytes, the escape byte and `byte`: the key
/// with Alt held.
pub open spec fn alt_key_event(byte: u8) -> Event {
    letter_event(byte, Modifiers::CtrlAlt, Modifiers::AltShift, Modifiers::Alt)
}

/// The key that `digit ~` names.
pub open spec fn tilde_key(digit: u8) -> Option<Event> {
    if digit == 50 {
        Some(Event::Insert)
    } else if digit == 51 {
        Some(Event::Delete)
    } else if digit == 53 {
        Some(Event::PgUp)
    } else if digit == 54 {
        Some(Event::PgDown)
    } else {
        None
    }
}

/// The event of a report of the terminal's size, `fields` being what follows
/// `ESC [ 8 ;`: the height, the width and the final byte `t`. The second
/// number is the number of bytes taken from `fields`. A width that is left
/// out reads as 0, and a third field is let pass where it is 0.
pub open spec fn size_report(fields: Seq<u8>) -> Option<(Event, int)> {
    let (p, read) = params(fields, 116, 116);
    if p[0] != INVALID && p[1] != INVALID && p[2] == 0 {
        Some((Event::TerminalResize(Dimension { width: p[1], height: p[0] }), read))
    } else {
        None
    }
}

/// The event of a mouse report in SGR form, `fields` being what follows
/// `ESC [ <`: the button code, the column, the row and the final byte `M` or
/// `m`. Column and row count from one on the wire and from zero in the
/// event, so a report with a zero in either is not recognised.
///
/// In the button code, bit 6 marks the wheel (bit 0 then tells down from
/// up), bit 5 a drag, bits 2 to 4 the modifiers, and bits 0 and 1 the button,
/// 3 standing for motion with no button. A final `m` is a release.
pub open spec fn mouse_report(fields: Seq<u8>) -> Option<(Event, int)> {
    let (p, read) = params(fields, 109, 77);
    let code = p[0] as int;
    if p[0] == INVALID || p[1] == INVALID || p[2] == INVALID || p[1] == 0 || p[2] == 0 {
        None
    } else {
        let pos = Position { x: (p[1] - 1) as u16, y: (p[2] - 1) as u16 };
        let mods = modifiers_of_bits((code / 4) % 8);
        let event = if (code / 64) % 2 == 1 {
            let direction = if code % 2 == 0 {
                MouseWheelDirection::Up
            } else {
                MouseWheelDirection::Down
            };
            Event::MouseWheel(direction, pos, mods)
        } else if code % 4 == 3 {
            Event::MouseMotion(pos, mods)
        } else {
            let action = if fields[read - 1] == 109 {
                MouseAction::Release
            } else if (code / 32) % 2 == 1 {
                MouseAction::Drag
            } else {
                MouseAction::Press
            };
            let button = if code % 4 == 0 {
                MouseButton::Left
            } else if code % 4 == 1 {
                MouseButton::Middle
            } else {
                MouseButton::Right
            };
            Event::Mouse(action, button, pos, mods)
        };
        Some((event, read))
    }
}

/// The event of a control sequence, `code` being what follows `ESC [`, and
/// the number of bytes taken from the whole input.
///
/// A lone final byte, `digit ~` and `1 ; modifier arrow` are recognised only
/// where they are all of `code`; a size report and a mouse report end at
/// their final byte and may leave bytes over. Mouse reports in the older
/// form, `M` and three bytes, are not recognised.
pub open spec fn recognize_csi(code: Seq<u8>) -> Option<(Event, int)> {
    if code.len() == 1 {
        if arrow_of(code[0]) is Some {
            Some((Event::Arrow(arrow_of(code[0])->0, Modifiers::Unmodified), 3))
        } else if code[0] == 70 {
            Some((Event::End, 3))
        } else if code[0] == 72 {
            Some((Event::Home, 3))
        } else {
            None
        }
    } else if code.len() == 2 && code[1] == 126 {
        match tilde_key(code[0]) {
            Some(event) => Some((event, 4)),
            None => None,
        }
    } else if code.len() == 4 && code[0] == 49 && code[1] == SEPARATOR {
        if modifiers_of(code[2]) is Some && arrow_of(code[3]) is Some {
            Some((Event::Arrow(arrow_of(code[3])->0, modifiers_of(code[2])->0), 6))
        } else {
            None
        }
    } else if code.len() > 2 && code[0] == 56 && code[1] == SEPARATOR {
        match size_report(code.subrange(2, code.len() as int)) {
            Some((event, read)) => Some((event, read + 4)),
            None => None,
        }
    } else if code.len() > 1 && code[0] == 60 {
        match mouse_report(code.subrange(1, code.len() as int)) {
            Some((event, read)) => Some((event, read + 3)),
            None => None,
        }
    } else {
        None
    }
}

/// The event at the head of `bytes` and the number of bytes it takes, where
/// `bytes` is recognised at all.
///
/// An input of one byte is a key. An input of two bytes that starts with
/// the escape byte is a key with Alt. A longer input is recognised only as a
/// control sequence, `ESC [` and what [`recognize_csi`] accepts. So the
/// longest form wins: `ESC [ A` is an arrow, not the escape key and two
/// letters behind it.
pub open spec fn recognize(bytes: Seq<u8>) -> Option<(Event, int)> {
    if bytes.len() == 0 {
        None
    } else if bytes.len() == 1 {
        Some((key_event(bytes[0]), 1))
    } else if bytes[0] != ESC {
        None
    } else if bytes.len() == 2 {
        Some((alt_key_event(bytes[1]), 2))
    } else if bytes[1] != 91 {
        None
    } else {
        recognize_csi(bytes.subrange(2, bytes.len() as int))
    }
}

/// The number of bytes that decoding `bytes` takes: those of the recognised
/// event, or else all.
pub open spec fn taken(bytes: Seq<u8>) -> int {
    match recognize(bytes) {
        Some((_, taken)) => taken,
        None => bytes.len() as int,
    }
}

/// Whether `event` is what `bytes` decodes to: the recognised event, or else
/// the whole input as an unknown sequence.
pub open spec fn is_decoding(bytes: Seq<u8>, event: Event) -> bool {
    match recognize(bytes) {
        Some((recognized, _)) => event == recognized,
        None => event matches Event::UnknownByteSequence(raw) && raw@ == bytes,
    }
}

/// A recognised event takes at least one byte and no more than the input
/// holds, and is never an unknown sequence.
pub proof fn lemma_recognize_bounds(bytes: Seq<u8>)
    ensures
        recognize(bytes) matches Some((event, taken)) ==> 1 <= taken <= bytes.len() && !(event is UnknownByteSequence),
{
    if bytes.len() > 2 {
        let code = bytes.subrange(2, bytes.len() as int);
        if code.len() > 2 {
            let fields = code.subrange(2, code.len() as int);
            lemma_params_from_bounds(fields, 116, 116, 0, 0, seq![0u16, 0u16, 0u16]);
        }
        if code.len() > 1 {
            let fields = code.subrange(1, code.len() as int);
            lemma_params_from_bounds(fields, 109, 77, 0, 0, seq![0u16, 0u16, 0u16]);
        }
    }
}

/// Decoding never takes more bytes than there are, and it takes at least
/// one of any input that is not empty.
pub proof fn lemma_taken_bounds(bytes: Seq<u8>)
    ensures
        0 <= taken(bytes) <= bytes.len(),
        bytes.len() > 0 ==> 1 <= taken(bytes),
{
    lemma_recognize_bounds(bytes);
}

/// A field ends in a prefix of the input where it ends in the whole of it,
/// or else at the end of the prefix.
pub proof fn lemma_field_end_prefix(bytes: Seq<u8>, until: u8, until2: u8, from: int, len: int)
    requires
        0 <= from <= len <= bytes.len(),
    ensures
        field_end(bytes.take(len), until, until2, from) == if field_end(bytes, until, until2, from)
            < len {
            field_end(bytes, until, until2, from)
        } else {
            len
        },
    decreases len - from,
{
    lemma_field_end_bounds(bytes, until, until2, from);
    if from < len {
        assert(bytes.take(len)[from] == bytes[from]);
        if !is_stop(bytes[from], until, until2) {
            lemma_field_end_prefix(bytes, until, until2, from + 1, len);
        }
    }
}

/// The fields are read from the bytes that they take and from no others:
/// read from those bytes alone, they are the same and take as many.
pub proof fn lemma_params_from_prefix(
    bytes: Seq<u8>,
    until: u8,
    until2: u8,
    start: int,
    idx: int,
    acc: Seq<u16>,
)
    requires
        0 <= start <= bytes.len(),
        0 <= idx,
        acc.len() == 3,
    ensures
        params_from(
            bytes.take(params_from(bytes, until, until2, start, idx, acc).1),
            until,
            until2,
            start,
            idx,
            acc,
        ) == params_from(bytes, until, until2, start, idx, acc),
    decreases bytes.len() - start,
{
    let whole = params_from(bytes, until, until2, start, idx, acc);
    let head = bytes.take(whole.1);
    let end = field_end(bytes, until, until2, start);
    lemma_field_end_bounds(bytes, until, until2, start);
    lemma_params_from_bounds(bytes, until, until2, start, idx, acc);
    lemma_field_end_prefix(bytes, until, until2, start, whole.1);
    if end - start > 3 {
    } else if end >= bytes.len() {
        assert(head =~= bytes);
    } else if idx >= 3 {
    } else {
        let read = acc.update(idx, decimal_field(bytes.subrange(start, end)) as u16);
        if !(bytes[end] == until || bytes[end] == until2) {
            lemma_params_from_bounds(bytes, until, until2, end + 1, idx + 1, read);
            lemma_params_from_prefix(bytes, until, until2, end + 1, idx + 1, read);
        }
        assert(end < whole.1);
        assert(head.subrange(start, end) =~= bytes.subrange(start, end));
    }
}

/// An event is decoded from the bytes that it takes and from no others:
/// what lies behind them in the input has no say in it, and when it is
/// decoded in its turn, the bytes taken before are not read again.
pub proof fn lemma_taken_bytes_decode_alike(bytes: Seq<u8>)
    ensures
        recognize(bytes.take(taken(bytes))) == recognize(bytes),
        taken(bytes.take(taken(bytes))) == taken(bytes),
{
    lemma_taken_bounds(bytes);
    let head = bytes.take(taken(bytes));
    if taken(bytes) == bytes.len() {
        assert(head =~= bytes);
    } else {
        // Only a report leaves bytes over.
        let code = bytes.subrange(2, bytes.len() as int);
        let zeros = seq![0u16, 0u16, 0u16];
        assert(bytes.len() > 2 && bytes[0] == ESC && bytes[1] == 91);
        let head_code = head.subrange(2, head.len() as int);
        if code[0] == 56 {
            let fields = code.subrange(2, code.len() as int);
            let read = params(fields, 116, 116).1;
            lemma_params_from_bounds(fields, 116, 116, 0, 0, zeros);
            lemma_params_from_prefix(fields, 116, 116, 0, 0, zeros);
            assert(taken(bytes) == read + 4);
            assert(head_code.len() == read + 2);
            assert(head_code.subrange(2, head_code.len() as int) =~= fields.take(read));
            assert(size_report(fields.take(read)) == size_report(fields));
            assert(recognize_csi(head_code) == recognize_csi(code));
        } else {
            let fields = code.subrange(1, code.len() as int);
            let read = params(fields, 109, 77).1;
            lemma_params_from_bounds(fields, 109, 77, 0, 0, zeros);
            lemma_params_from_prefix(fields, 109, 77, 0, 0, zeros);
            lemma_field_end_bounds(fields, 109, 77, 0);
            assert(taken(bytes) == read + 3);
            assert(head_code.len() == read + 1);
            assert(head_code.subrange(1, head_code.len() as int) =~= fields.take(read));
            if read == 1 {
                // A report of one byte has no button code to read.
                let end = field_end(fields, 109, 77, 0);
                if end < fields.len() && end <= 3 {
                    let first = zeros.update(0, decimal_field(fields.subrange(0, end)) as u16);
                    if fields[end] == SEPARATOR {
                        lemma_params_from_bounds(fields, 109, 77, end + 1, 1, first);
                        assert(end == 0 && fields.len() == 1);
                    } else {
                        assert(end == 0);
                        assert(fields.subrange(0, 0) =~= Seq::<u8>::empty());
                        assert(first[0] == INVALID);
                    }
                }
                assert(params(fields, 109, 77).0[0] == INVALID);
                assert(mouse_report(fields) is None);
            }
            assert(read >= 2);
            assert(fields.take(read)[read - 1] == fields[read - 1]);
            assert(mouse_report(fields.take(read)) == mouse_report(fields));
            assert(recognize_csi(head_code) == recognize_csi(code));
        }
    }
}

/// What a terminal of `size` answers when asked for its size:
/// `ESC [ 8 ; height ; width t`.
pub open spec fn size_reply(size: Dimension) -> Seq<u8> {
    csi() + seq![56u8, SEPARATOR] + decimal(size.height as nat) + seq![SEPARATOR] + decimal(
        size.width as nat,
    ) + seq![116u8]
}

/// A number below [`INVALID`], written in decimal, is a numeric field with
/// that number as its value.
pub proof fn lemma_decimal_is_field(n: nat)
    requires
        n < INVALID,
    ensures
        1 <= decimal(n).len() <= 3,
        forall|i: int| 0 <= i < decimal(n).len() ==> is_digit(#[trigger] decimal(n)[i]),
        digits_value(decimal(n)) == n,
        decimal_field(decimal(n)) == n,
    decreases n,
{
    if n < 10 {
        assert(decimal(n).drop_last() =~= Seq::<u8>::empty());
        assert(digits_value(decimal(n).drop_last()) == 0);
    } else {
        lemma_decimal_is_field(n / 10);
        assert(decimal(n).drop_last() =~= decimal(n / 10));
        if n < 100 {
            assert(decimal(n / 10).len() == 1);
        } else {
            assert(n / 10 >= 10);
            assert(decimal((n / 10) / 10).len() == 1);
            assert(decimal(n / 10).len() == 2);
        }
    }
}

/// A numeric field that stands in `bytes` from `start` on, with a byte
/// behind it that ends a field, is found to end at that byte.
proof fn lemma_field_found(bytes: Seq<u8>, until: u8, until2: u8, start: int, field: Seq<u8>)
    requires
        0 <= start,
        start + field.len() < bytes.len(),
        bytes.subrange(start, start + field.len()) == field,
        forall|i: int| 0 <= i < field.len() ==> is_digit(#[trigger] field[i]),
        !is_digit(until),
        !is_digit(until2),
        is_stop(bytes[start + field.len()], until, until2),
    ensures
        field_end(bytes, until, until2, start) == start + field.len(),
{
    assert forall|k: int| start <= k < start + field.len() implies !is_stop(
        #[trigger] bytes[k],
        until,
        until2,
    ) by {
        assert(bytes[k] == field[k - start]);
    }
    lemma_field_end_skip(bytes, until, until2, start, start + field.len());
}

/// The answer of a terminal to the question for its size decodes to that
/// size, and takes the bytes of the answer and no others, whatever follows
/// it in the input. This holds of sizes below [`INVALID`] in both
/// directions: a larger number is not read as a numeric field.
pub proof fn lemma_size_reply_round_trip(size: Dimension, rest: Seq<u8>)
    requires
        size.width < INVALID,
        size.height < INVALID,
    ensures
        recognize(size_reply(size) + rest) == Some(
            (Event::TerminalResize(size), size_reply(size).len() as int),
        ),
{
    let height = decimal(size.height as nat);
    let width = decimal(size.width as nat);
    lemma_decimal_is_field(size.height as nat);
    lemma_decimal_is_field(size.width as nat);
    let bytes = size_reply(size) + rest;
    let code = bytes.subrange(2, bytes.len() as int);
    let fields = code.subrange(2, code.len() as int);
    assert(fields =~= height + seq![SEPARATOR] + width + seq![116u8] + rest);
    assert(code[0] == 56 && code[1] == SEPARATOR);
    assert(bytes[0] == ESC && bytes[1] == 91);
    let first_end = height.len() as int;
    let second_start = first_end + 1;
    let second_end = second_start + width.len();
    assert(fields.subrange(0, first_end) =~= height);
    assert(fields.subrange(second_start, second_end) =~= width);
    assert(fields[first_end] == SEPARATOR);
    assert(fields[second_end] == 116u8);
    lemma_field_found(fields, 116, 116, 0, height);
    lemma_field_found(fields, 116, 116, second_start, width);
    let zeros = seq![0u16, 0u16, 0u16];
    let one = zeros.update(0, size.height);
    let two = one.update(1, size.width);
    assert(params_from(fields, 116, 116, second_start, 1, one) == (two, second_end + 1));
    assert(params_from(fields, 116, 116, 0, 0, zeros) == (two, second_end + 1));
    assert(size_report(fields) == Some(
        (Event::TerminalResize(Dimension { width: size.width, height: size.height }), second_end + 1),
    ));
    assert(size_reply(size).len() == second_end + 1 + 4);
}

fn unknown(bytes: &[u8]) -> (res: (Event, usize))
    ensures
        res.0 matches Event::UnknownByteSequence(raw) && raw@ == bytes@,
        res.1 == bytes.len(),
{
    (Event::UnknownByteSequence(slice_to_vec(bytes)), bytes.len())
}

fn letter(byte: u8, ctrl: Modifiers, shift: Modifiers, plain: Modifiers) -> (res: Event)
    ensures
        res == letter_event(byte, ctrl, shift, plain),
{
    if byte < 32 {
        Event::Press((byte + 96) as char, ctrl)
    } else if byte >= 65 && byte <= 90 {
        Event::Press((byte + 32) as char, shift)
    } else {
        Event::Press(byte as char, plain)
    }
}

fn modifiers_from_bits(bits: u16) -> (res: Modifiers)
    ensures
        res == modifiers_of_bits(bits as int),
{
    match bits {
        0 => Modifiers::Unmodified,
        1 => Modifiers::Shift,
        2 => Modifiers::Alt,
        3 => Modifiers::AltShift,
        4 => Modifiers::Ctrl,
        5 => Modifiers::CtrlShift,
        6 => Modifiers::CtrlAlt,
        _ => Modifiers::CtrlShiftAlt,
    }
}

fn parse_size_report(fields: &[u8]) -> (res: Option<(Event, usize)>)
    ensures
        match size_report(fields@) {
            Some((event, read)) => res matches Some(r) && r.0 == event && r.1 == read,
            None => res is None,
        },
{
    let (p, read) = read_params(fields, 116, 116);
    let height: u16 = p[0];
    let width: u16 = p[1];
    let extra: u16 = p[2];
    if height == INVALID || width == INVALID || extra != 0 {
        return None;
    }
    Some((Event::TerminalResize(Dimension { width, height }), read))
}

fn parse_mouse_report(fields: &[u8]) -> (res: Option<(Event, usize)>)
    requires
        fields.len() > 0,
    ensures
        match mouse_report(fields@) {
            Some((event, read)) => res matches Some(r) && r.0 == event && r.1 == read,
            None => res is None,
        },
{
    let (p, read) = read_params(fields, 109, 77);
    let b: u16 = p[0];
    let x: u16 = p[1];
    let y: u16 = p[2];
    if b == INVALID || x == INVALID || y == INVALID || x == 0 || y == 0 {
        return None;
    }
    let pos = Position { x: x - 1, y: y - 1 };
    assert((b & 0b11100) >> 2 == (b / 4) % 8) by (bit_vector);
    assert((b & 0b1000000 != 0) == ((b / 64) % 2 == 1)) by (bit_vector);
    assert((b & 0b100000 != 0) == ((b / 32) % 2 == 1)) by (bit_vector);
    assert((b & 0b1 == 0) == (b % 2 == 0)) by (bit_vector);
    assert(b & 0b11 == b % 4) by (bit_vector);
    let mods = modifiers_from_bits((b & 0b11100) >> 2);
    if b & 0b1000000 != 0 {
        let dir = if b & 0b1 == 0 {
            MouseWheelDirection::Up
        } else {
            MouseWheelDirection::Down
        };
        return Some((Event::MouseWheel(dir, pos, mods), read));
    }
    let action = if fields[read - 1] == 109 {
        MouseAction::Release
    } else if b & 0b100000 != 0 {
        MouseAction::Drag
    } else {
        MouseAction::Press
    };
    let button = match b & 0b11 {
        0 => MouseButton::Left,
        1 => MouseButton::Middle,
        2 => MouseButton::Right,
        _ => {
            return Some((Event::MouseMotion(pos, mods), read));
        },
    };
    Some((Event::Mouse(action, button, pos, mods), read))
}

/// Decodes the event at the head of `bytes`.
///
/// Returns the event and the number of bytes it took. Input that is not
/// recognised, the empty input included, comes back whole as
/// [`Event::UnknownByteSequence`]. Bytes beyond those taken are for the
/// caller to keep, and to put in front of what is read next.
pub fn parse_input_sequence(bytes: &[u8]) -> (res: (Event, usize))
    ensures
        is_decoding(bytes@, res.0),
        res.1 == taken(bytes@),
        res.1 <= bytes.len(),
        bytes.len() > 0 ==> 1 <= res.1,
{
    proof {
        lemma_recognize_bounds(bytes@);
    }
    let len = bytes.len();
    if len == 0 {
        return unknown(bytes);
    }
    if len == 1 {
        let b = bytes[0];
        let event = if b == ESC {
            Event::Escape
        } else if b == 9 {
            Event::Tab
        } else if b == 32 {
            Event::Space
        } else if b == 127 {
            Event::Backspace
        } else {
            letter(b, Modifiers::Ctrl, Modifiers::Shift, Modifiers::Unmodified)
        };
        return (event, 1);
    }
    if bytes[0] != ESC {
        return unknown(bytes);
    }
    if len == 2 {
        return (letter(bytes[1], Modifiers::CtrlAlt, Modifiers::AltShift, Modifiers::Alt), 2);
    }
    if bytes[1] != 91 {
        return unknown(bytes);
    }
    let code = slice_subrange(bytes, 2, len);
    let n = code.len();
    if n == 1 {
        let b = code[0];
        return match parse_arrow(b) {
            Some(arrow) => (Event::Arrow(arrow, Modifiers::Unmodified), 3),
            None => if b == 70 {
                (Event::End, 3)
            } else if b == 72 {
                (Event::Home, 3)
            } else {
                unknown(bytes)
            },
        };
    }
    if n == 2 && code[1] == 126 {
        let b = code[0];
        return if b == 50 {
            (Event::Insert, 4)
        } else if b == 51 {
            (Event::Delete, 4)
        } else if b == 53 {
            (Event::PgUp, 4)
        } else if b == 54 {
            (Event::PgDown, 4)
        } else {
            unknown(bytes)
        };
    }
    if n == 4 && code[0] == 49 && code[1] == SEPARATOR {
        return match (parse_mods(code[2]), parse_arrow(code[3])) {
            (Some(mods), Some(arrow)) => (Event::Arrow(arrow, mods), 6),
            _ => unknown(bytes),
        };
    }
    if n > 2 && code[0] == 56 && code[1] == SEPARATOR {
        return match parse_size_report(slice_subrange(code, 2, n)) {
            Some((event, read)) => (event, read + 4),
            None => unknown(bytes),
        };
    }
    if n > 1 && code[0] == 60 {
        return match parse_mouse_report(slice_subrange(code, 1, n)) {
            Some((event, read)) => (event, read + 3),
            None => unknown(bytes),
        };
    }
    unknown(bytes)
}

/// The most bytes that are decoded at once.
pub const BUFFER_SIZE: usize = 16;

/// What came of one read of the terminal's input.
pub enum ReadOutcome<'a> {
    /// The read gave these bytes. None at all means that the input has
    /// ended.
    Bytes(&'a [u8]),
    /// The input ended in the middle of a read.
    Ended,
    /// The read failed.
    Failed,
}

/// What the reader of the input does after a read.
#[derive(Debug, PartialEq, Eq)]
pub enum ReaderStep {
    /// Pass the event on to whoever listens, and read on if somebody does.
    Forward(Event),
    /// Pass the failure on, then stop.
    Report,
    /// Stop, with nothing to pass on.
    Stop,
}

/// The bytes that were read from the terminal and not yet decoded.
///
/// Each chunk that is read is put behind what the last decoding left over,
/// and one event is decoded from the head of the whole. The reader asks
/// [`InputBuffer::room`] how much it may read, so that the whole never
/// exceeds [`BUFFER_SIZE`] bytes.
pub struct InputBuffer {
    pending: Vec<u8>,
}

impl View for InputBuffer {
    type V = Seq<u8>;

    /// The bytes left over.
    closed spec fn view(&self) -> Seq<u8> {
        self.pending@
    }
}

impl InputBuffer {
    #[verifier::type_invariant]
    spec fn inv(self) -> bool {
        self.pending@.len() < BUFFER_SIZE
    }

    /// A buffer with nothing left over.
    pub fn new() -> (res: InputBuffer)
        ensures
            res@ == Seq::<u8>::empty(),
    {
        InputBuffer { pending: Vec::new() }
    }

    /// The number of bytes that the next chunk may hold: at least one.
    pub fn room(&self) -> (res: usize)
        ensures
            res == BUFFER_SIZE - self@.len(),
            1 <= res <= BUFFER_SIZE,
    {
        proof {
            use_type_invariant(self);
        }
        BUFFER_SIZE - self.pending.len()
    }

    /// Takes the chunk that was read and decodes one event from the head of
    /// what is buffered.
    ///
    /// An empty chunk is the end of the input: nothing is decoded. Else the
    /// bytes that the event took are gone from the buffer and the others
    /// stay, in order, in front of the next chunk.
    pub fn push(&mut self, chunk: &[u8]) -> (res: Option<Event>)
        requires
            chunk@.len() <= BUFFER_SIZE - old(self)@.len(),
        ensures
            chunk@.len() == 0 ==> res is None && final(self)@ == old(self)@,
            chunk@.len() > 0 ==> {
                &&& res matches Some(event)
                &&& is_decoding(old(self)@ + chunk@, event)
                &&& final(self)@ == (old(self)@ + chunk@).skip(taken(old(self)@ + chunk@))
            },
    {
        proof {
            use_type_invariant(&*self);
        }
        if chunk.len() == 0 {
            return None;
        }
        let mut whole: Vec<u8> = self.pending.clone();
        assert(whole@ =~= self.pending@);
        whole.extend_from_slice(chunk);
        assert(whole@ =~= old(self)@ + chunk@);
        let (event, read) = parse_input_sequence(whole.as_slice());
        let rest = slice_to_vec(slice_subrange(whole.as_slice(), read, whole.len()));
        assert(rest@ =~= whole@.skip(read as int));
        self.pending = rest;
        Some(event)
    }

    /// Decides what follows a read: bytes are decoded and the event is
    /// passed on, the end of the input stops the reader without a word, and
    /// a failure is passed on before the reader stops.
    pub fn on_read(&mut self, outcome: ReadOutcome) -> (res: ReaderStep)
        requires
            outcome matches ReadOutcome::Bytes(chunk) ==> chunk@.len() <= BUFFER_SIZE - old(
                self,
            )@.len(),
        ensures
            match outcome {
                ReadOutcome::Bytes(chunk) => if chunk@.len() == 0 {
                    res is Stop && final(self)@ == old(self)@
                } else {
                    &&& res matches ReaderStep::Forward(event)
                    &&& is_decoding(old(self)@ + chunk@, event)
                    &&& final(self)@ == (old(self)@ + chunk@).skip(taken(old(self)@ + chunk@))
                },
                ReadOutcome::Ended => res is Stop && final(self)@ == old(self)@,
                ReadOutcome::Failed => res is Report && final(self)@ == old(self)@,
            },
    {
        match outcome {
            ReadOutcome::Bytes(chunk) => match self.push(chunk) {
                Some(event) => ReaderStep::Forward(event),
                None => ReaderStep::Stop,
            },
            ReadOutcome::Ended => ReaderStep::Stop,
            ReadOutcome::Failed => ReaderStep::Report,
        }
    }
}

} // verus!
