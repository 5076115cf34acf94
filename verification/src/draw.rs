//! Cells, their colours, and the display buffer that repaints only what
//! changed.

use vstd::prelude::*;
use vstd::utf8::encode_scalar;
use crate::ansi::{
    cursor_to, erase_all, push_cursor_to, push_reset_colors, push_truecolor, reset_colors, truecolor,
};
use crate::state::{Dimension, Pixel, Position};

verus! {

/// Something with a fixed rendering in escape sequences and text.
pub trait Drawable {
    /// The bytes that draw `self` on a terminal.
    spec fn rendering(&self) -> Seq<u8>;

    /// Appends the rendering to `out`.
    fn draw(&self, out: &mut Vec<u8>)
        ensures
            final(out)@ == old(out)@ + self.rendering(),
    ;
}

/// A 24-bit colour.
#[derive(Clone, Copy, Debug, PartialEq, Eq, Structural)]
pub struct Color {
    pub r: u8,
    pub g: u8,
    pub b: u8,
}

impl Color {
    /// The colour with these three channels.
    pub fn new(r: u8, g: u8, b: u8) -> (res: Color)
        ensures
            res == (Color { r, g, b }),
    {
        Color { r, g, b }
    }

    /// The gray with all three channels at `gray`.
    pub fn gray(gray: u8) -> (res: Color)
        ensures
            res == (Color { r: gray, g: gray, b: gray }),
    {
        Color { r: gray, g: gray, b: gray }
    }
}

impl From<Pixel> for Color {
    /// The colour of the pixel, without its opacity.
    fn from(pixel: Pixel) -> (res: Color) {
        Color { r: pixel.r, g: pixel.g, b: pixel.b }
    }
}

impl vstd::std_specs::convert::FromSpecImpl<Pixel> for Color {
    open spec fn obeys_from_spec() -> bool {
        true
    }

    open spec fn from_spec(pixel: Pixel) -> Color {
        Color { r: pixel.r, g: pixel.g, b: pixel.b }
    }
}

/// The colours of a cell. A channel that is `None` is not set when the cell
/// is drawn, so the terminal's default shows.
#[derive(Clone, Copy, Debug, PartialEq, Eq, Structural)]
pub struct CellColor {
    pub bg: Option<Color>,
    pub fg: Option<Color>,
}

/// One cell of the display: a character and its colours.
#[derive(Clone, Copy, Debug, PartialEq, Eq, Structural)]
pub struct CharCell {
    pub color: CellColor,
    pub char: char,
}

impl Default for CellColor {
    fn default() -> (res: CellColor)
        ensures
            res == CellColor::unset(),
    {
        CellColor { bg: None, fg: None }
    }
}

impl CellColor {
    /// No colour on either channel.
    pub open spec fn unset() -> CellColor {
        CellColor { bg: None, fg: None }
    }

    /// No colour on either channel.
    pub fn none() -> (res: CellColor)
        ensures
            res == CellColor::unset(),
    {
        CellColor { bg: None, fg: None }
    }

    /// The same colours with the background set to `rgb`.
    pub fn bg(self, rgb: Color) -> (res: CellColor)
        ensures
            res == (CellColor { bg: Some(rgb), fg: self.fg }),
    {
        CellColor { bg: Some(rgb), fg: self.fg }
    }

    /// The same colours with the foreground set to `rgb`.
    pub fn fg(self, rgb: Color) -> (res: CellColor)
        ensures
            res == (CellColor { bg: self.bg, fg: Some(rgb) }),
    {
        CellColor { bg: self.bg, fg: Some(rgb) }
    }

    /// Unsets both channels.
    pub fn clear(&mut self)
        ensures
            *final(self) == CellColor::unset(),
    {
        self.bg = None;
        self.fg = None;
    }
}

impl Default for CharCell {
    fn default() -> (res: CharCell)
        ensures
            res == CharCell::blank(),
    {
        CharCell { color: CellColor { bg: None, fg: None }, char: ' ' }
    }
}

impl CharCell {
    /// A space with no colours set, which is also the default.
    pub open spec fn blank() -> CharCell {
        CharCell { color: CellColor::unset(), char: ' ' }
    }

    /// The cell that shows `char` with the colours `color`.
    pub open spec fn colored(color: CellColor, char: char) -> CharCell {
        CharCell { color, char }
    }

    /// The cell that shows `char` with no colours set.
    pub fn new(char: char) -> (res: CharCell)
        ensures
            res == (CharCell { color: CellColor::unset(), char }),
    {
        CharCell { color: CellColor { bg: None, fg: None }, char }
    }

    /// The same character with the colours `color`.
    pub fn color(self, color: CellColor) -> (res: CharCell)
        ensures
            res == (CharCell { color, char: self.char }),
    {
        CharCell { color, char: self.char }
    }

    /// The same cell with the background set to `rgb`.
    pub fn bg(self, rgb: Color) -> (res: CharCell)
        ensures
            res == (CharCell {
                color: CellColor { bg: Some(rgb), fg: self.color.fg },
                char: self.char,
            }),
    {
        CharCell { color: self.color.bg(rgb), char: self.char }
    }

    /// The same cell with the foreground set to `rgb`.
    pub fn fg(self, rgb: Color) -> (res: CharCell)
        ensures
            res == (CharCell {
                color: CellColor { bg: self.color.bg, fg: Some(rgb) },
                char: self.char,
            }),
    {
        CharCell { color: self.color.fg(rgb), char: self.char }
    }

    /// Makes the cell blank.
    pub fn clear(&mut self)
        ensures
            *final(self) == CharCell::blank(),
    {
        self.char = ' ';
        self.color.clear();
    }
}

/// Appends the UTF-8 encoding of `c`.
pub fn push_char(out: &mut Vec<u8>, c: char)
    ensures
        final(out)@ == old(out)@ + encode_scalar(c as u32),
{
    let v: u32 = c as u32;
    if v <= 0x7F {
        out.push((v & 0x7F) as u8);
    } else if v <= 0x7FF {
        out.push(0xC0 | ((v >> 6) & 0x1F) as u8);
        out.push(0x80 | (v & 0x3F) as u8);
    } else if v <= 0xFFFF {
        out.push(0xE0 | ((v >> 12) & 0x0F) as u8);
        out.push(0x80 | ((v >> 6) & 0x3F) as u8);
        out.push(0x80 | (v & 0x3F) as u8);
    } else {
        out.push(0xF0 | ((v >> 18) & 0x7) as u8);
        out.push(0x80 | ((v >> 12) & 0x3F) as u8);
        out.push(0x80 | ((v >> 6) & 0x3F) as u8);
        out.push(0x80 | (v & 0x3F) as u8);
    }
    assert(out@ =~= old(out)@ + encode_scalar(c as u32));
}

impl Drawable for Position {
    /// The cursor goes to the position. The terminal counts rows and columns
    /// from one.
    open spec fn rendering(&self) -> Seq<u8> {
        cursor_to(self.y as nat + 1, self.x as nat + 1)
    }

    fn draw(&self, out: &mut Vec<u8>) {
        push_cursor_to(out, self.y as u32 + 1, self.x as u32 + 1);
    }
}

impl Drawable for CellColor {
    /// The background where it is set, then the foreground where it is set.
    open spec fn rendering(&self) -> Seq<u8> {
        (match self.bg {
            Some(c) => truecolor(48, c.r, c.g, c.b),
            None => Seq::<u8>::empty(),
        }) + (match self.fg {
            Some(c) => truecolor(38, c.r, c.g, c.b),
            None => Seq::<u8>::empty(),
        })
    }

    fn draw(&self, out: &mut Vec<u8>) {
        if let Some(c) = self.bg {
            push_truecolor(out, 48, c.r, c.g, c.b);
        }
        if let Some(c) = self.fg {
            push_truecolor(out, 38, c.r, c.g, c.b);
        }
        assert(out@ =~= old(out)@ + self.rendering());
    }
}

impl Drawable for CharCell {
    /// The colours, the character in UTF-8, and a reset of the colours.
    open spec fn rendering(&self) -> Seq<u8> {
        self.color.rendering() + encode_scalar(self.char as u32) + reset_colors()
    }

    fn draw(&self, out: &mut Vec<u8>) {
        self.color.draw(out);
        push_char(out, self.char);
        push_reset_colors(out);
        assert(out@ =~= old(out)@ + self.rendering());
    }
}

/// The cells of row `y` in columns 0 to `w - 1`, rendered one after another.
pub open spec fn row_rendering(buffer: Seq<CharCell>, size: Dimension, y: nat, w: nat) -> Seq<u8>
    decreases w,
{
    if w == 0 {
        Seq::<u8>::empty()
    } else {
        row_rendering(buffer, size, y, (w - 1) as nat) + buffer[size.index_of(
            Position { x: (w - 1) as u16, y: y as u16 },
        ) as int].rendering()
    }
}

/// Rows 0 to `h - 1`: for each, the cursor goes to its start and its first
/// `w` cells are rendered.
pub open spec fn rows_rendering(buffer: Seq<CharCell>, size: Dimension, w: nat, h: nat) -> Seq<u8>
    decreases h,
{
    if h == 0 {
        Seq::<u8>::empty()
    } else {
        rows_rendering(buffer, size, w, (h - 1) as nat) + cursor_to(h, 1) + row_rendering(
            buffer,
            size,
            (h - 1) as nat,
            w,
        )
    }
}

/// What brings the terminal's cell at `pos` up to date: nothing where the
/// cell is drawn as it is in the buffer, else a move of the cursor and the
/// cell.
pub open spec fn patch(
    drawn: Seq<CharCell>,
    buffer: Seq<CharCell>,
    size: Dimension,
    pos: Position,
) -> Seq<u8> {
    let i = size.index_of(pos) as int;
    if drawn[i] != buffer[i] {
        pos.rendering() + buffer[i].rendering()
    } else {
        Seq::<u8>::empty()
    }
}

/// The patches of row `y` in columns 0 to `w - 1`.
pub open spec fn row_patches(
    drawn: Seq<CharCell>,
    buffer: Seq<CharCell>,
    size: Dimension,
    y: nat,
    w: nat,
) -> Seq<u8>
    decreases w,
{
    if w == 0 {
        Seq::<u8>::empty()
    } else {
        row_patches(drawn, buffer, size, y, (w - 1) as nat) + patch(
            drawn,
            buffer,
            size,
            Position { x: (w - 1) as u16, y: y as u16 },
        )
    }
}

/// The patches of rows 0 to `h - 1`, each in its first `w` columns.
pub open spec fn rows_patches(
    drawn: Seq<CharCell>,
    buffer: Seq<CharCell>,
    size: Dimension,
    w: nat,
    h: nat,
) -> Seq<u8>
    decreases h,
{
    if h == 0 {
        Seq::<u8>::empty()
    } else {
        rows_patches(drawn, buffer, size, w, (h - 1) as nat) + row_patches(
            drawn,
            buffer,
            size,
            (h - 1) as nat,
            w,
        )
    }
}

/// What a display buffer holds.
pub struct Screen {
    /// The size of the canvas, which never changes.
    pub size: Dimension,
    /// The cells as they should show, row by row.
    pub buffer: Seq<CharCell>,
    /// The cells as the terminal is known to show them, once a frame was
    /// written.
    pub drawn: Option<Seq<CharCell>>,
    /// The cells as the terminal shows them once the frame that was handed
    /// out last is written.
    pub pending: Option<Seq<CharCell>>,
}

impl Screen {
    /// Buffer and snapshots hold one cell for each position of the canvas.
    pub open spec fn wf(self) -> bool {
        &&& self.buffer.len() == self.size.cells()
        &&& self.drawn matches Some(cells) ==> cells.len() == self.buffer.len()
        &&& self.pending matches Some(cells) ==> cells.len() == self.buffer.len()
    }

    /// A canvas of blank cells of which nothing is drawn yet.
    pub open spec fn blank(size: Dimension) -> Screen {
        Screen {
            size,
            buffer: Seq::new(size.cells(), |i: int| CharCell::blank()),
            drawn: None,
            pending: None,
        }
    }

    /// The cell at `pos`.
    pub open spec fn cell(self, pos: Position) -> CharCell {
        self.buffer[self.size.index_of(pos) as int]
    }

    /// The state after the cells of `rect` that lie on the canvas were made
    /// blank.
    pub open spec fn after_clear(self, rect: Dimension) -> Screen {
        Screen {
            buffer: Seq::new(
                self.buffer.len(),
                |i: int|
                    if rect.meet(self.size).contains(self.size.position_at(i)) {
                        CharCell::blank()
                    } else {
                        self.buffer[i]
                    },
            ),
            ..self
        }
    }

    /// The state after `cell` was put at `pos`.
    pub open spec fn after_put(self, pos: Position, cell: CharCell) -> Screen {
        Screen { buffer: self.buffer.update(self.size.index_of(pos) as int, cell), ..self }
    }

    /// The cells that show `text`, one for each character, all with the
    /// colours `color`.
    pub open spec fn text_cells(color: CellColor, text: Seq<char>) -> Seq<CharCell> {
        text.map_values(|c: char| CharCell::colored(color, c))
    }

    /// The state after the cells of `text` took the place of the cells from
    /// `pos` on, in the order of the buffer.
    pub open spec fn after_put_text(self, pos: Position, color: CellColor, text: Seq<char>) -> Screen {
        let start = self.size.index_of(pos) as int;
        Screen {
            buffer: self.buffer.subrange(0, start) + Screen::text_cells(color, text)
                + self.buffer.subrange(start + text.len(), self.buffer.len() as int),
            ..self
        }
    }

    /// The bytes that paint `part` of the canvas from scratch: the screen is
    /// erased, every row of the part is written from its first column, the
    /// colours are reset and the cursor goes to the top left.
    pub open spec fn redraw_bytes(self, part: Dimension) -> Seq<u8> {
        let area = part.meet(self.size);
        erase_all() + rows_rendering(self.buffer, self.size, area.width as nat, area.height as nat)
            + reset_colors() + cursor_to(1, 1)
    }

    /// The state after the bytes of a full repaint were handed out: once
    /// they are written, the terminal is taken to show the whole buffer.
    pub open spec fn after_redraw(self, part: Dimension) -> Screen {
        Screen { pending: Some(self.buffer), ..self }
    }

    /// The cells that the terminal shows once the patches for `part` are
    /// written over `drawn`.
    pub open spec fn patched(self, drawn: Seq<CharCell>, part: Dimension) -> Seq<CharCell> {
        Seq::new(
            self.buffer.len(),
            |i: int|
                if part.meet(self.size).contains(self.size.position_at(i)) {
                    self.buffer[i]
                } else {
                    drawn[i]
                },
        )
    }

    /// The bytes that bring `part` of the terminal up to date: the patches of
    /// its cells row by row where a snapshot is there, else a full repaint.
    pub open spec fn draw_bytes(self, part: Dimension) -> Seq<u8> {
        let area = part.meet(self.size);
        match self.drawn {
            Some(drawn) => rows_patches(
                drawn,
                self.buffer,
                self.size,
                area.width as nat,
                area.height as nat,
            ),
            None => self.redraw_bytes(part),
        }
    }

    /// The state after the bytes of [`Screen::draw_bytes`] were handed out.
    pub open spec fn after_draw(self, part: Dimension) -> Screen {
        match self.drawn {
            Some(drawn) => Screen { pending: Some(self.patched(drawn, part)), ..self },
            None => self.after_redraw(part),
        }
    }

    /// The state after the caller said whether the frame that was handed
    /// out last was written. Only a written frame moves the snapshot.
    pub open spec fn after_confirm(self, written: bool) -> Screen {
        Screen {
            drawn: if written && self.pending is Some {
                self.pending
            } else {
                self.drawn
            },
            pending: None,
            ..self
        }
    }
}

impl Screen {
    /// Whether the terminal is known to show the cell at `pos` as the buffer
    /// holds it.
    pub open spec fn in_sync(self, pos: Position) -> bool {
        self.drawn matches Some(drawn) && drawn[self.size.index_of(pos) as int] == self.cell(pos)
    }

    /// After a draw of `part` that was written, the terminal shows every
    /// cell of `part` that lies on the canvas as the buffer holds it; after a
    /// repaint that was written, it shows every cell of the canvas so.
    pub proof fn lemma_written_frame_syncs(self, part: Dimension, pos: Position)
        requires
            self.wf(),
            self.size.contains(pos),
        ensures
            self.after_redraw(part).after_confirm(true).in_sync(pos),
            part.meet(self.size).contains(pos) ==> self.after_draw(part).after_confirm(
                true,
            ).in_sync(pos),
            self.after_draw(part).after_confirm(true).wf(),
            self.after_redraw(part).after_confirm(true).wf(),
    {
        self.size.lemma_index_of_contained(pos);
    }

    /// A frame that was not written changes nothing but that no frame is
    /// waiting any more.
    pub proof fn lemma_unwritten_frame_is_dropped(self, part: Dimension)
        ensures
            self.after_draw(part).after_confirm(false) == (Screen { pending: None, ..self }),
            self.after_redraw(part).after_confirm(false) == (Screen { pending: None, ..self }),
    {
    }

    /// A row in which the terminal shows every cell as the buffer holds it
    /// needs no patch.
    proof fn lemma_row_in_sync(self, y: nat, w: nat)
        requires
            self.drawn is Some,
            y <= u16::MAX,
            w <= u16::MAX + 1,
            forall|other: Position| other.x < w && other.y == y ==> #[trigger] self.in_sync(other),
        ensures
            row_patches(self.drawn->0, self.buffer, self.size, y, w) == Seq::<u8>::empty(),
        decreases w,
    {
        if w > 0 {
            self.lemma_row_in_sync(y, (w - 1) as nat);
            assert(self.in_sync(Position { x: (w - 1) as u16, y: y as u16 }));
        }
    }

    /// Rows in which the terminal shows every cell as the buffer holds it
    /// need no patch.
    proof fn lemma_rows_in_sync(self, w: nat, h: nat)
        requires
            self.drawn is Some,
            w <= u16::MAX + 1,
            h <= u16::MAX + 1,
            forall|pos: Position| pos.x < w && pos.y < h ==> #[trigger] self.in_sync(pos),
        ensures
            rows_patches(self.drawn->0, self.buffer, self.size, w, h) == Seq::<u8>::empty(),
        decreases h,
    {
        if h > 0 {
            self.lemma_rows_in_sync(w, (h - 1) as nat);
            self.lemma_row_in_sync((h - 1) as nat, w);
        }
    }

    /// A row in which one cell differs from what the terminal shows needs
    /// the patch of that cell and no other.
    proof fn lemma_row_single_change(self, pos: Position, w: nat)
        requires
            self.drawn is Some,
            pos.x < w <= u16::MAX + 1,
            forall|other: Position|
                other.x < w && other.y == pos.y && other != pos ==> #[trigger] self.in_sync(other),
        ensures
            row_patches(self.drawn->0, self.buffer, self.size, pos.y as nat, w) == patch(
                self.drawn->0,
                self.buffer,
                self.size,
                pos,
            ),
        decreases w,
    {
        let last = Position { x: (w - 1) as u16, y: pos.y };
        if pos.x == w - 1 {
            self.lemma_row_in_sync(pos.y as nat, (w - 1) as nat);
            assert(last == pos);
            assert(Seq::<u8>::empty() + patch(self.drawn->0, self.buffer, self.size, pos) =~= patch(
                self.drawn->0,
                self.buffer,
                self.size,
                pos,
            ));
        } else {
            self.lemma_row_single_change(pos, (w - 1) as nat);
            assert(self.in_sync(last));
            assert(patch(self.drawn->0, self.buffer, self.size, pos) + Seq::<u8>::empty() =~= patch(
                self.drawn->0,
                self.buffer,
                self.size,
                pos,
            ));
        }
    }

    /// Rows in which one cell differs from what the terminal shows need the
    /// patch of that cell and no other.
    proof fn lemma_rows_single_change(self, pos: Position, w: nat, h: nat)
        requires
            self.drawn is Some,
            pos.x < w <= u16::MAX + 1,
            pos.y < h <= u16::MAX + 1,
            forall|other: Position|
                other.x < w && other.y < h && other != pos ==> #[trigger] self.in_sync(other),
        ensures
            rows_patches(self.drawn->0, self.buffer, self.size, w, h) == patch(
                self.drawn->0,
                self.buffer,
                self.size,
                pos,
            ),
        decreases h,
    {
        let change = patch(self.drawn->0, self.buffer, self.size, pos);
        if pos.y == h - 1 {
            self.lemma_rows_in_sync(w, (h - 1) as nat);
            self.lemma_row_single_change(pos, w);
            assert(Seq::<u8>::empty() + change =~= change);
        } else {
            self.lemma_rows_single_change(pos, w, (h - 1) as nat);
            self.lemma_row_in_sync((h - 1) as nat, w);
            assert(change + Seq::<u8>::empty() =~= change);
        }
    }

    /// Where the terminal shows every cell of `part` as the buffer holds it,
    /// a draw has nothing to send.
    pub proof fn lemma_nothing_to_draw(self, part: Dimension)
        requires
            self.wf(),
            self.drawn is Some,
            forall|pos: Position| part.meet(self.size).contains(pos) ==> #[trigger] self.in_sync(pos),
        ensures
            self.draw_bytes(part) == Seq::<u8>::empty(),
    {
        let area = part.meet(self.size);
        self.lemma_rows_in_sync(area.width as nat, area.height as nat);
    }

    /// Painting is repeatable and settles: a repaint hands out the same
    /// bytes whatever was painted before, a draw that follows a written
    /// repaint has nothing to send, and neither has a draw that follows a
    /// written draw of the same part.
    pub proof fn lemma_painting_settles(self, part: Dimension, written: bool)
        requires
            self.wf(),
        ensures
            self.after_redraw(part).redraw_bytes(part) == self.redraw_bytes(part),
            self.after_redraw(part).after_confirm(written).redraw_bytes(part) == self.redraw_bytes(
                part,
            ),
            self.after_redraw(part).after_confirm(true).draw_bytes(part) == Seq::<u8>::empty(),
            self.after_draw(part).after_confirm(true).draw_bytes(part) == Seq::<u8>::empty(),
    {
        let area = part.meet(self.size);
        let repainted = self.after_redraw(part).after_confirm(true);
        assert forall|pos: Position| area.contains(pos) implies #[trigger] repainted.in_sync(
            pos,
        ) by {
            self.lemma_written_frame_syncs(part, pos);
        }
        repainted.lemma_nothing_to_draw(part);
        let drawn = self.after_draw(part).after_confirm(true);
        assert forall|pos: Position| area.contains(pos) implies #[trigger] drawn.in_sync(pos) by {
            self.lemma_written_frame_syncs(part, pos);
        }
        drawn.lemma_nothing_to_draw(part);
    }

    /// Where one cell of `part` differs from what the terminal shows and
    /// all its other cells are in sync, a draw hands out one move of the
    /// cursor and that one cell, whatever the size of the canvas.
    pub proof fn lemma_single_change(self, part: Dimension, pos: Position)
        requires
            self.wf(),
            self.drawn is Some,
            part.meet(self.size).contains(pos),
            !self.in_sync(pos),
            forall|other: Position|
                part.meet(self.size).contains(other) && other != pos ==> #[trigger] self.in_sync(
                    other,
                ),
        ensures
            self.draw_bytes(part) == pos.rendering() + self.cell(pos).rendering(),
    {
        let area = part.meet(self.size);
        self.lemma_rows_single_change(pos, area.width as nat, area.height as nat);
    }
}

/// A canvas of cells and the record of what the terminal shows of it.
///
/// The buffer is changed with `put`, `put_text` and `clear`. `draw` and
/// `redraw` hand out the bytes that bring the terminal up to date, and
/// `confirm` then records whether they were written: the snapshot of what
/// the terminal shows only moves once they were.
pub struct TerminalState {
    size: Dimension,
    drawn: Option<Vec<CharCell>>,
    pending: Option<Vec<CharCell>>,
    buffer: Vec<CharCell>,
}

impl View for TerminalState {
    type V = Screen;

    closed spec fn view(&self) -> Screen {
        Screen {
            size: self.size,
            buffer: self.buffer@,
            drawn: match self.drawn {
                Some(cells) => Some(cells@),
                None => None,
            },
            pending: match self.pending {
                Some(cells) => Some(cells@),
                None => None,
            },
        }
    }
}

impl TerminalState {
    #[verifier::type_invariant]
    spec fn inv(self) -> bool {
        self@.wf()
    }

    /// A canvas of `size`, all cells blank, of which nothing is drawn yet.
    pub fn new(size: Dimension) -> (res: TerminalState)
        ensures
            res@ == Screen::blank(size),
    {
        let n = size.number();
        let mut buffer: Vec<CharCell> = Vec::new();
        let mut i: usize = 0;
        while i < n
            invariant
                i <= n,
                buffer@.len() == i,
                forall|k: int| 0 <= k < i ==> buffer@[k] == CharCell::blank(),
            decreases n - i,
        {
            buffer.push(CharCell { color: CellColor { bg: None, fg: None }, char: ' ' });
            i += 1;
        }
        assert(buffer@ =~= Screen::blank(size).buffer);
        TerminalState { size, buffer, drawn: None, pending: None }
    }

    fn offset(&self, pos: Position) -> (res: usize)
        ensures
            res == self@.size.index_of(pos),
    {
        self.size.offset(pos)
    }

    /// The size of the canvas.
    pub fn size(&self) -> (res: Dimension)
        ensures
            res == self@.size,
            self@.wf(),
    {
        proof {
            use_type_invariant(self);
        }
        self.size
    }

    /// Makes every cell of `rect` that lies on the canvas blank.
    pub fn clear(&mut self, rect: Dimension)
        ensures
            final(self)@ == old(self)@.after_clear(rect),
    {
        proof {
            use_type_invariant(&*self);
        }
        let size = self.size;
        let area = rect.min(size);
        let ghost before = self.buffer@;
        let mut y: u16 = 0;
        while y < area.height
            invariant
                y <= area.height,
                area == rect.meet(size),
                self.size == size,
                self.drawn == old(self).drawn,
                self.pending == old(self).pending,
                self@.wf(),
                self.buffer@.len() == size.cells(),
                before.len() == size.cells(),
                forall|i: int|
                    0 <= i < self.buffer@.len() ==> #[trigger] self.buffer@[i] == if size.position_at(i).x
                        < area.width && size.position_at(i).y < y {
                        CharCell::blank()
                    } else {
                        before[i]
                    },
            decreases area.height - y,
        {
            let mut x: u16 = 0;
            while x < area.width
                invariant
                    x <= area.width,
                    y < area.height,
                    area == rect.meet(size),
                    self.size == size,
                    self.drawn == old(self).drawn,
                    self.pending == old(self).pending,
                    self@.wf(),
                    self.buffer@.len() == size.cells(),
                    before.len() == size.cells(),
                    forall|i: int|
                        0 <= i < self.buffer@.len() ==> #[trigger] self.buffer@[i] == if size.position_at(
                            i,
                        ).x < area.width && (size.position_at(i).y < y || (size.position_at(i).y
                            == y && size.position_at(i).x < x)) {
                            CharCell::blank()
                        } else {
                            before[i]
                        },
                decreases area.width - x,
            {
                let pos = Position { x, y };
                let off = size.offset(pos);
                proof {
                    size.lemma_index_of_contained(pos);
                    size.lemma_positions_differ(pos);
                }
                self.buffer[off] = CharCell { color: CellColor { bg: None, fg: None }, char: ' ' };
                x += 1;
            }
            y += 1;
        }
        assert(self.buffer@ =~= old(self)@.after_clear(rect).buffer);
    }

    /// Puts `cell` at `pos`, which is a position of the canvas or one with
    /// an index within it.
    pub fn put(&mut self, pos: Position, cell: CharCell)
        requires
            old(self)@.size.index_of(pos) < old(self)@.size.cells(),
        ensures
            final(self)@ == old(self)@.after_put(pos, cell),
    {
        proof {
            use_type_invariant(&*self);
        }
        let off = self.offset(pos);
        self.buffer[off] = cell;
        assert(self.buffer@ =~= old(self)@.after_put(pos, cell).buffer);
    }

    /// Puts `text` on the canvas from `pos` on, one cell for each character,
    /// all with the colours `color`. The text goes on into the next row
    /// where it is longer than the rest of its row, but must end within the
    /// canvas.
    pub fn put_text(&mut self, pos: Position, color: CellColor, text: &str)
        requires
            old(self)@.size.index_of(pos) + text@.len() <= old(self)@.size.cells(),
        ensures
            final(self)@ == old(self)@.after_put_text(pos, color, text@),
    {
        proof {
            use_type_invariant(&*self);
        }
        let start = self.offset(pos);
        let ghost before = self.buffer@;
        let ghost n = text@.len();
        let len = self.buffer.len();
        let mut k: usize = 0;
        for ch in chars: text.chars()
            invariant
                k == chars.index(),
                chars.seq() == text@,
                n == text@.len(),
                len == self.buffer@.len(),
                self.size == old(self).size,
                self.drawn == old(self).drawn,
                self.pending == old(self).pending,
                self@.wf(),
                start + n <= self.buffer@.len(),
                self.buffer@.len() == before.len(),
                forall|i: int|
                    0 <= i < self.buffer@.len() ==> #[trigger] self.buffer@[i] == if start <= i < start + k {
                        CharCell { color, char: text@[i - start] }
                    } else {
                        before[i]
                    },
        {
            self.buffer[start + k] = CharCell { color, char: ch };
            k += 1;
        }
        proof {
            let cells = Screen::text_cells(color, text@);
            let head = before.subrange(0, start as int);
            let tail = before.subrange(start + n, before.len() as int);
            let want = head + cells + tail;
            assert(want.len() == self.buffer@.len());
            assert forall|i: int| 0 <= i < want.len() implies want[i] == self.buffer@[i] by {
                if i < start {
                    assert(want[i] == head[i]);
                } else if i < start + n {
                    assert(want[i] == cells[i - start]);
                } else {
                    assert(want[i] == tail[i - start - n]);
                }
            }
            assert(self.buffer@ =~= want);
        }
    }

    /// Hands out the bytes that paint `part` of the canvas from scratch.
    /// Once they are written and confirmed, the terminal is taken to show
    /// the whole buffer.
    pub fn redraw(&mut self, part: Dimension) -> (out: Vec<u8>)
        ensures
            out@ == old(self)@.redraw_bytes(part),
            final(self)@ == old(self)@.after_redraw(part),
    {
        proof {
            use_type_invariant(&*self);
        }
        let size = self.size;
        let area = part.min(size);
        let mut out: Vec<u8> = Vec::new();
        out.push(27);
        out.push(91);
        out.push(51);
        out.push(74);
        assert(out@ =~= erase_all());
        let mut y: u16 = 0;
        while y < area.height
            invariant
                y <= area.height,
                area == part.meet(size),
                self.buffer@.len() == size.cells(),
                out@ == erase_all() + rows_rendering(
                    self.buffer@,
                    size,
                    area.width as nat,
                    y as nat,
                ),
            decreases area.height - y,
        {
            let ghost head = out@;
            push_cursor_to(&mut out, y as u32 + 1, 1);
            let mut x: u16 = 0;
            while x < area.width
                invariant
                    x <= area.width,
                    y < area.height,
                    area == part.meet(size),
                    self.buffer@.len() == size.cells(),
                    out@ == head + cursor_to(y as nat + 1, 1) + row_rendering(
                        self.buffer@,
                        size,
                        y as nat,
                        x as nat,
                    ),
                decreases area.width - x,
            {
                let pos = Position { x, y };
                let off = size.offset(pos);
                proof {
                    size.lemma_index_of_contained(pos);
                }
                self.buffer[off].draw(&mut out);
                assert(out@ =~= head + cursor_to(y as nat + 1, 1) + row_rendering(
                    self.buffer@,
                    size,
                    y as nat,
                    x as nat + 1,
                ));
                x += 1;
            }
            assert(out@ =~= erase_all() + rows_rendering(
                self.buffer@,
                size,
                area.width as nat,
                y as nat + 1,
            ));
            y += 1;
        }
        push_reset_colors(&mut out);
        push_cursor_to(&mut out, 1, 1);
        let snapshot = self.buffer.clone();
        assert(snapshot@ =~= self.buffer@);
        self.pending = Some(snapshot);
        out
    }

    /// Hands out the bytes that bring `part` of the terminal up to date:
    /// for each cell that differs from the snapshot, row by row, a move of
    /// the cursor and the cell. Where there is no snapshot this is
    /// [`TerminalState::redraw`].
    pub fn draw(&mut self, part: Dimension) -> (out: Vec<u8>)
        ensures
            out@ == old(self)@.draw_bytes(part),
            final(self)@ == old(self)@.after_draw(part),
    {
        proof {
            use_type_invariant(&*self);
        }
        let size = self.size;
        let area = part.min(size);
        let mut next: Vec<CharCell> = match &self.drawn {
            None => {
                return self.redraw(part);
            },
            Some(drawn) => drawn.clone(),
        };
        let ghost drawn = old(self)@.drawn->0;
        assert(next@ =~= drawn);
        let mut out: Vec<u8> = Vec::new();
        let mut y: u16 = 0;
        while y < area.height
            invariant
                y <= area.height,
                area == part.meet(size),
                self.buffer@.len() == size.cells(),
                drawn.len() == size.cells(),
                next@.len() == size.cells(),
                out@ == rows_patches(drawn, self.buffer@, size, area.width as nat, y as nat),
                forall|i: int|
                    0 <= i < next@.len() ==> #[trigger] next@[i] == if size.position_at(i).x
                        < area.width && size.position_at(i).y < y {
                        self.buffer@[i]
                    } else {
                        drawn[i]
                    },
            decreases area.height - y,
        {
            let ghost head = out@;
            let mut x: u16 = 0;
            while x < area.width
                invariant
                    x <= area.width,
                    y < area.height,
                    area == part.meet(size),
                    self.buffer@.len() == size.cells(),
                    drawn.len() == size.cells(),
                    next@.len() == size.cells(),
                    out@ == head + row_patches(drawn, self.buffer@, size, y as nat, x as nat),
                    forall|i: int|
                        0 <= i < next@.len() ==> #[trigger] next@[i] == if size.position_at(i).x
                            < area.width && (size.position_at(i).y < y || (size.position_at(i).y
                            == y && size.position_at(i).x < x)) {
                            self.buffer@[i]
                        } else {
                            drawn[i]
                        },
                decreases area.width - x,
            {
                let pos = Position { x, y };
                let off = size.offset(pos);
                proof {
                    size.lemma_index_of_contained(pos);
                    size.lemma_positions_differ(pos);
                }
                let cell = self.buffer[off];
                if next[off] != cell {
                    pos.draw(&mut out);
                    cell.draw(&mut out);
                    next[off] = cell;
                }
                assert(out@ =~= head + row_patches(
                    drawn,
                    self.buffer@,
                    size,
                    y as nat,
                    x as nat + 1,
                ));
                x += 1;
            }
            assert(out@ =~= rows_patches(
                drawn,
                self.buffer@,
                size,
                area.width as nat,
                y as nat + 1,
            ));
            y += 1;
        }
        assert(next@ =~= old(self)@.patched(drawn, part));
        self.pending = Some(next);
        out
    }

    /// Records whether the bytes that `draw` or `redraw` handed out last
    /// were written to the terminal. If they were, the snapshot moves on to
    /// what they painted; if not, it stays, so that the next `draw` hands
    /// the same changes out again.
    pub fn confirm(&mut self, written: bool)
        ensures
            final(self)@ == old(self)@.after_confirm(written),
    {
        proof {
            use_type_invariant(&*self);
        }
        let mut pending: Option<Vec<CharCell>> = None;
        std::mem::swap(&mut pending, &mut self.pending);
        if written {
            if let Some(cells) = pending {
                self.drawn = Some(cells);
            }
        }
    }
}

} // verus!
