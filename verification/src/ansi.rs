//! The escape sequences that drive the terminal, and a writer that collects
//! them.
//!
//! Every sequence is given twice: as a specification, a `Seq<u8>`, and as a
//! function that appends exactly those bytes to a buffer.

use vstd::prelude::*;
use vstd::string::StringSliceAdditionalSpecFns;
use vstd::utf8::encode_utf8;

verus! {

/// The bytes `ESC [` that open a control sequence.
pub open spec fn csi() -> Seq<u8> {
    seq![27u8, 91u8]
}

/// The decimal digits of `n` in ASCII, without leading zeros.
pub open spec fn decimal(n: nat) -> Seq<u8>
    decreases n,
{
    if n < 10 {
        seq![(48 + n) as u8]
    } else {
        decimal(n / 10).push((48 + n % 10) as u8)
    }
}

/// `ESC [ ? code h` to set a private mode, `ESC [ ? code l` to reset it.
pub open spec fn private_mode(code: nat, enable: bool) -> Seq<u8> {
    csi() + seq![63u8] + decimal(code) + seq![
        if enable {
            104u8
        } else {
            108u8
        },
    ]
}

/// `ESC [ s`: the terminal remembers where the cursor is.
pub open spec fn cursor_save() -> Seq<u8> {
    csi() + seq![115u8]
}

/// `ESC [ u`: the cursor goes back to where it was remembered.
pub open spec fn cursor_restore() -> Seq<u8> {
    csi() + seq![117u8]
}

/// `ESC [ row ; col H`: the cursor goes to `row` and `col`, both counted
/// from one.
pub open spec fn cursor_to(row: nat, col: nat) -> Seq<u8> {
    csi() + decimal(row) + seq![59u8] + decimal(col) + seq![72u8]
}

/// `ESC [ 0 m`: colours go back to the terminal's defaults.
pub open spec fn reset_colors() -> Seq<u8> {
    csi() + seq![48u8, 109u8]
}

/// `ESC [ 3 J`: the screen and what scrolled off it are erased.
pub open spec fn erase_all() -> Seq<u8> {
    csi() + seq![51u8, 74u8]
}

/// `ESC [ 18 t`: the terminal is asked for its size in cells. It answers
/// with `ESC [ 8 ; height ; width t`.
pub open spec fn size_query() -> Seq<u8> {
    csi() + seq![49u8, 56u8, 116u8]
}

/// `ESC [ layer ; 2 ; r ; g ; b m`: a 24-bit colour for the foreground
/// (`layer` 38) or the background (`layer` 48).
pub open spec fn truecolor(layer: nat, r: u8, g: u8, b: u8) -> Seq<u8> {
    csi() + decimal(layer) + seq![59u8, 50u8, 59u8] + decimal(r as nat) + seq![59u8] + decimal(
        g as nat,
    ) + seq![59u8] + decimal(b as nat) + seq![109u8]
}

/// The private mode of the alternate screen.
pub const ALT_SCREEN: u16 = 1049;

/// The private mode that shows the cursor.
pub const CURSOR: u16 = 25;

/// The private mode in which the terminal reports every motion of the mouse.
pub const MOUSE_MOTION: u16 = 1003;

/// The private mode in which mouse reports come in SGR form.
pub const MOUSE_SGR: u16 = 1006;

/// The private mode in which long lines wrap.
pub const LINE_WRAP: u16 = 7;

/// What turns the reporting of the mouse on or off: both of its modes.
pub open spec fn mouse_reporting(enable: bool) -> Seq<u8> {
    private_mode(MOUSE_MOTION as nat, enable) + private_mode(MOUSE_SGR as nat, enable)
}

/// Appends `bytes` to `out`.
pub fn push_bytes(out: &mut Vec<u8>, bytes: &[u8])
    ensures
        final(out)@ == old(out)@ + bytes@,
{
    out.extend_from_slice(bytes);
    assert(out@ =~= old(out)@ + bytes@);
}

/// Appends the decimal digits of `n`.
pub fn push_decimal(out: &mut Vec<u8>, n: u32)
    ensures
        final(out)@ == old(out)@ + decimal(n as nat),
    decreases n,
{
    if n >= 10 {
        push_decimal(out, n / 10);
    }
    out.push(48 + (n % 10) as u8);
    assert(out@ =~= old(out)@ + decimal(n as nat));
}

/// Appends the sequence that sets or resets the private mode `code`.
pub fn push_private_mode(out: &mut Vec<u8>, code: u16, enable: bool)
    ensures
        final(out)@ == old(out)@ + private_mode(code as nat, enable),
{
    out.push(27);
    out.push(91);
    out.push(63);
    push_decimal(out, code as u32);
    out.push(if enable { 104 } else { 108 });
    assert(out@ =~= old(out)@ + private_mode(code as nat, enable));
}

/// Appends the sequence that moves the cursor to `row` and `col`, both
/// counted from one.
pub fn push_cursor_to(out: &mut Vec<u8>, row: u32, col: u32)
    ensures
        final(out)@ == old(out)@ + cursor_to(row as nat, col as nat),
{
    out.push(27);
    out.push(91);
    push_decimal(out, row);
    out.push(59);
    push_decimal(out, col);
    out.push(72);
    assert(out@ =~= old(out)@ + cursor_to(row as nat, col as nat));
}

/// Appends the sequence that sets a 24-bit colour on `layer`.
pub fn push_truecolor(out: &mut Vec<u8>, layer: u8, r: u8, g: u8, b: u8)
    ensures
        final(out)@ == old(out)@ + truecolor(layer as nat, r, g, b),
{
    out.push(27);
    out.push(91);
    push_decimal(out, layer as u32);
    out.push(59);
    out.push(50);
    out.push(59);
    push_decimal(out, r as u32);
    out.push(59);
    push_decimal(out, g as u32);
    out.push(59);
    push_decimal(out, b as u32);
    out.push(109);
    assert(out@ =~= old(out)@ + truecolor(layer as nat, r, g, b));
}

/// Appends the sequence that resets the colours.
pub fn push_reset_colors(out: &mut Vec<u8>)
    ensures
        final(out)@ == old(out)@ + reset_colors(),
{
    out.push(27);
    out.push(91);
    out.push(48);
    out.push(109);
    assert(out@ =~= old(out)@ + reset_colors());
}

/// A writer of escape sequences. What it writes collects in a buffer, which
/// the caller takes and sends to the terminal.
pub struct Ansi {
    output: Vec<u8>,
}

/// A writer that appends to `output`.
pub fn ansi(output: Vec<u8>) -> (res: Ansi)
    ensures
        res@ == output@,
{
    Ansi { output }
}

impl View for Ansi {
    type V = Seq<u8>;

    /// The bytes written and not yet taken.
    closed spec fn view(&self) -> Seq<u8> {
        self.output@
    }
}

impl Ansi {
    fn xterm_toggle(&mut self, code: u16, enable: bool)
        ensures
            final(self)@ == old(self)@ + private_mode(code as nat, enable),
    {
        push_private_mode(&mut self.output, code, enable);
    }

    /// Switches to the alternate screen, or back to the primary one.
    pub fn alt_screen(&mut self, show: bool)
        ensures
            final(self)@ == old(self)@ + private_mode(ALT_SCREEN as nat, show),
    {
        self.xterm_toggle(ALT_SCREEN, show)
    }

    /// Shows or hides the cursor.
    pub fn cursor(&mut self, show: bool)
        ensures
            final(self)@ == old(self)@ + private_mode(CURSOR as nat, show),
    {
        self.xterm_toggle(CURSOR, show)
    }

    /// Turns the reporting of the mouse on or off.
    pub fn mouse_tracking(&mut self, enable: bool)
        ensures
            final(self)@ == old(self)@ + mouse_reporting(enable),
    {
        self.xterm_toggle(MOUSE_MOTION, enable);
        self.xterm_toggle(MOUSE_SGR, enable);
        assert(self@ =~= old(self)@ + mouse_reporting(enable));
    }

    /// Has the terminal remember the cursor's place.
    pub fn cursor_push(&mut self)
        ensures
            final(self)@ == old(self)@ + cursor_save(),
    {
        self.output.push(27);
        self.output.push(91);
        self.output.push(115);
        assert(self@ =~= old(self)@ + cursor_save());
    }

    /// Puts the cursor back where it was remembered.
    pub fn cursor_pop(&mut self)
        ensures
            final(self)@ == old(self)@ + cursor_restore(),
    {
        self.output.push(27);
        self.output.push(91);
        self.output.push(117);
        assert(self@ =~= old(self)@ + cursor_restore());
    }

    /// Moves the cursor to column `x` of row `y`, both counted from one.
    pub fn cursor_move(&mut self, x: u32, y: u32)
        ensures
            final(self)@ == old(self)@ + cursor_to(y as nat, x as nat),
    {
        push_cursor_to(&mut self.output, y, x);
    }

    /// Writes `s`, encoded as UTF-8, at column `x` of row `y` and puts the
    /// cursor back where it was.
    pub fn write_at(&mut self, x: u32, y: u32, s: &str)
        ensures
            final(self)@ == old(self)@ + cursor_save() + cursor_to(y as nat, x as nat)
                + encode_utf8(s@) + cursor_restore(),
    {
        self.cursor_push();
        self.cursor_move(x, y);
        push_bytes(&mut self.output, s.as_bytes());
        self.cursor_pop();
        assert(self@ =~= old(self)@ + cursor_save() + cursor_to(y as nat, x as nat)
            + encode_utf8(s@) + cursor_restore());
    }

    /// Asks the terminal for its size in cells. The answer comes with the
    /// input, as a report of the size.
    pub fn query_size(&mut self)
        ensures
            final(self)@ == old(self)@ + size_query(),
    {
        self.output.push(27);
        self.output.push(91);
        self.output.push(49);
        self.output.push(56);
        self.output.push(116);
        assert(self@ =~= old(self)@ + size_query());
    }

    /// Writes `bytes` as they are.
    pub fn write(&mut self, bytes: &[u8])
        ensures
            final(self)@ == old(self)@ + bytes@,
    {
        push_bytes(&mut self.output, bytes);
    }

    /// Leaves the modes that a writer may have entered: mouse reporting off,
    /// primary screen, cursor shown.
    pub fn reset(&mut self)
        ensures
            final(self)@ == old(self)@ + mouse_reporting(false) + private_mode(
                ALT_SCREEN as nat,
                false,
            ) + private_mode(CURSOR as nat, true),
    {
        self.mouse_tracking(false);
        self.alt_screen(false);
        self.cursor(true);
        assert(self@ =~= old(self)@ + mouse_reporting(false) + private_mode(
            ALT_SCREEN as nat,
            false,
        ) + private_mode(CURSOR as nat, true));
    }

    /// Hands out what was written since the last call, for sending.
    pub fn take(&mut self) -> (res: Vec<u8>)
        ensures
            res@ == old(self)@,
            final(self)@ == Seq::<u8>::empty(),
    {
        let mut res: Vec<u8> = Vec::new();
        res.append(&mut self.output);
        assert(res@ =~= old(self)@);
        res
    }
}

} // verus!
