use vstd::prelude::*;
use vstd::string::StringSliceAdditionalSpecFns;

verus! {

/// Rows of the text screen.
pub const BUFFER_ROWS: usize = 25;

/// Columns of the text screen.
pub const BUFFER_COLS: usize = 80;

/// Cells of the text screen.
pub const BUFFER_CELLS: usize = 2000;

/// The sixteen colors of the text mode.
#[derive(Debug, Clone, Copy, PartialEq, Eq)]
pub enum Color {
    Black,
    Blue,
    Green,
    Cyan,
    Red,
    Magenta,
    Brown,
    LightGray,
    DarkGray,
    LightBlue,
    LightGreen,
    LightCyan,
    LightRed,
    Pink,
    Yellow,
    White,
}

/// The 4-bit code of a color.
pub open spec fn color_value(c: Color) -> u8 {
    match c {
        Color::Black => 0,
        Color::Blue => 1,
        Color::Green => 2,
        Color::Cyan => 3,
        Color::Red => 4,
        Color::Magenta => 5,
        Color::Brown => 6,
        Color::LightGray => 7,
        Color::DarkGray => 8,
        Color::LightBlue => 9,
        Color::LightGreen => 10,
        Color::LightCyan => 11,
        Color::LightRed => 12,
        Color::Pink => 13,
        Color::Yellow => 14,
        Color::White => 15,
    }
}

/// The 4-bit code of a color.
pub fn color_code(c: Color) -> (r: u8)
    ensures
        r == color_value(c),
        r < 16,
{
    match c {
        Color::Black => 0,
        Color::Blue => 1,
        Color::Green => 2,
        Color::Cyan => 3,
        Color::Red => 4,
        Color::Magenta => 5,
        Color::Brown => 6,
        Color::LightGray => 7,
        Color::DarkGray => 8,
        Color::LightBlue => 9,
        Color::LightGreen => 10,
        Color::LightCyan => 11,
        Color::LightRed => 12,
        Color::Pink => 13,
        Color::Yellow => 14,
        Color::White => 15,
    }
}

/// Attribute byte: background in the high four bits, foreground in the low four.
pub open spec fn attribute(fg: Color, bg: Color) -> int {
    color_value(bg) * 16 + color_value(fg)
}

/// A screen cell: the character in the low byte, the attribute in the high one.
pub open spec fn cell_value(byte: u8, fg: Color, bg: Color) -> u16 {
    (byte + 256 * attribute(fg, bg)) as u16
}

/// The value that clearing the screen with background `bg` puts in each cell:
/// no character, the background in the high four bits of the attribute.
pub open spec fn blank_cell(bg: Color) -> u16 {
    (color_value(bg) * 4096) as u16
}

/// The value that scrolling puts in each cell of the new last row: the
/// background code shifted by four bits, which lands in the character byte.
pub open spec fn scroll_fill(bg: Color) -> u16 {
    (color_value(bg) * 16) as u16
}

/// The screen after scrolling up by one row: every row takes the contents of
/// the row below it, and the last row is filled with `scroll_fill(bg)`.
pub open spec fn scrolled(cells: Seq<u16>, bg: Color) -> Seq<u16> {
    Seq::new(
        BUFFER_CELLS as nat,
        |p: int|
            if p < 1920 {
                cells[p + 80]
            } else {
                scroll_fill(bg)
            },
    )
}

/// Cursor and screen after a line break: the start of the next row, or, on
/// the last row, the screen scrolled and the cursor at the start of the last row.
pub open spec fn after_new_line(position: int, cells: Seq<u16>, bg: Color) -> (int, Seq<u16>) {
    if position / 80 < 24 {
        ((position / 80 + 1) * 80, cells)
    } else {
        (1920, scrolled(cells, bg))
    }
}

/// Cursor and screen after a printable byte: on the very last cell a line
/// break comes first; the byte goes at the cursor, which then moves on by
/// one, but not past the last cell.
pub open spec fn after_ascii(
    position: int,
    cells: Seq<u16>,
    byte: u8,
    fg: Color,
    bg: Color,
) -> (int, Seq<u16>) {
    let (p, c) = if position == 1999 {
        after_new_line(position, cells, bg)
    } else {
        (position, cells)
    };
    (if p + 1 < 1999 { p + 1 } else { 1999 }, c.update(p, cell_value(byte, fg, bg)))
}

/// Cursor and screen after one byte: a line feed breaks the line, a
/// printable byte (0x20 to 0x7e) is written, any other byte is written as `~`.
pub open spec fn after_byte(
    position: int,
    cells: Seq<u16>,
    byte: u8,
    fg: Color,
    bg: Color,
) -> (int, Seq<u16>) {
    if byte == 10 {
        after_new_line(position, cells, bg)
    } else if 0x20 <= byte <= 0x7e {
        after_ascii(position, cells, byte, fg, bg)
    } else {
        after_ascii(position, cells, 0x7e, fg, bg)
    }
}

/// Cursor and screen after the bytes, in order.
pub open spec fn after_bytes(
    position: int,
    cells: Seq<u16>,
    bytes: Seq<u8>,
    fg: Color,
    bg: Color,
) -> (int, Seq<u16>)
    decreases bytes.len(),
{
    if bytes.len() == 0 {
        (position, cells)
    } else {
        let (p, c) = after_bytes(position, cells, bytes.drop_last(), fg, bg);
        after_byte(p, c, bytes.last(), fg, bg)
    }
}

/// A line break leaves the cursor at the start of a row of the screen.
pub proof fn lemma_new_line_starts_row(position: int, cells: Seq<u16>, bg: Color)
    requires
        0 <= position < BUFFER_CELLS,
    ensures
        after_new_line(position, cells, bg).0 % 80 == 0,
        0 <= after_new_line(position, cells, bg).0 < BUFFER_CELLS,
        after_new_line(position, cells, bg).0 / 80 == if position / 80 < 24 {
            position / 80 + 1
        } else {
            24
        },
{
}

/// Away from the last cell, a printable byte lands at the cursor in the
/// console's colors, the cursor moves on by one (stopping at the last cell),
/// and no other cell changes.
pub proof fn lemma_printable_at_cursor(position: int, cells: Seq<u16>, byte: u8, fg: Color, bg: Color)
    requires
        0 <= position < 1999,
        cells.len() == BUFFER_CELLS,
        0x20 <= byte <= 0x7e,
    ensures
        after_byte(position, cells, byte, fg, bg).1[position] == cell_value(byte, fg, bg),
        after_byte(position, cells, byte, fg, bg).0 == if position + 1 < 1999 {
            position + 1
        } else {
            1999
        },
        forall|q: int|
            0 <= q < BUFFER_CELLS && q != position ==> #[trigger] after_byte(
                position,
                cells,
                byte,
                fg,
                bg,
            ).1[q] == cells[q],
{
}

/// Writing two strings one after the other is writing their concatenation.
pub proof fn lemma_after_bytes_concat(
    position: int,
    cells: Seq<u16>,
    first: Seq<u8>,
    second: Seq<u8>,
    fg: Color,
    bg: Color,
)
    ensures
        after_bytes(position, cells, first + second, fg, bg) == {
            let (p, c) = after_bytes(position, cells, first, fg, bg);
            after_bytes(p, c, second, fg, bg)
        },
    decreases second.len(),
{
    if second.len() == 0 {
        assert(first + second =~= first);
    } else {
        lemma_after_bytes_concat(position, cells, first, second.drop_last(), fg, bg);
        assert((first + second).drop_last() =~= first + second.drop_last());
    }
}

/// Scrolling keeps each of the lower 24 rows, now one row higher.
pub proof fn lemma_scroll_moves_rows(cells: Seq<u16>, bg: Color, row: int, col: int)
    requires
        cells.len() == BUFFER_CELLS,
        1 <= row < 25,
        0 <= col < 80,
    ensures
        scrolled(cells, bg)[(row - 1) * 80 + col] == cells[row * 80 + col],
        scrolled(cells, bg)[24 * 80 + col] == scroll_fill(bg),
{
}

/// Attribute byte for the colors.
pub fn pack_color(foreground: Color, background: Color) -> (r: u8)
    ensures
        r == attribute(foreground, background),
{
    let bg = color_code(background);
    let fg = color_code(foreground);
    assert(bg << 4u8 | fg == bg * 16 + fg) by (bit_vector)
        requires
            bg < 16,
            fg < 16,
    ;
    bg << 4 | fg
}

/// The screen with every cell set to `blank_cell(color)`.
pub fn clear_with_background(writer: &mut Writer, color: Color)
    requires
        old(writer).wf(),
    ensures
        final(writer).wf(),
        final(writer).pos() == old(writer).pos(),
        final(writer).fg() == old(writer).fg(),
        final(writer).bg() == old(writer).bg(),
        final(writer).cells() == Seq::new(BUFFER_CELLS as nat, |p: int| blank_cell(color)),
{
    let value = (color_code(color) as u16) << 12;
    proof {
        let c = color_value(color) as u16;
        assert(c << 12u16 == c * 4096) by (bit_vector)
            requires
                c < 16,
        ;
    }
    for offset in 0..BUFFER_ROWS * BUFFER_COLS
        invariant
            writer.wf(),
            writer.pos() == old(writer).pos(),
            writer.fg() == old(writer).fg(),
            writer.bg() == old(writer).bg(),
            value == blank_cell(color),
            forall|p: int| 0 <= p < offset ==> writer.cells()[p] == value,
    {
        writer.buffer_write(offset, value);
    }
    assert(writer.cells() =~= Seq::new(BUFFER_CELLS as nat, |p: int| blank_cell(color)));
}

/// Clears the screen to black.
pub fn clear(writer: &mut Writer)
    requires
        old(writer).wf(),
    ensures
        final(writer).wf(),
        final(writer).pos() == old(writer).pos(),
        final(writer).fg() == old(writer).fg(),
        final(writer).bg() == old(writer).bg(),
        final(writer).cells() == Seq::new(BUFFER_CELLS as nat, |p: int| blank_cell(Color::Black)),
{
    clear_with_background(writer, Color::Black)
}

/// A text console: a cursor and colors, writing into the 80x25 screen.
pub struct Writer {
    position: usize,
    fg_color: Color,
    bg_color: Color,
    buffer: Vec<u16>,
}

impl Writer {
    /// Cursor position: the index of the cell the next byte goes to.
    pub closed spec fn pos(&self) -> int {
        self.position as int
    }

    /// Foreground color of what is written.
    pub closed spec fn fg(&self) -> Color {
        self.fg_color
    }

    /// Background color of what is written.
    pub closed spec fn bg(&self) -> Color {
        self.bg_color
    }

    /// Contents of the screen, row after row.
    pub closed spec fn cells(&self) -> Seq<u16> {
        self.buffer@
    }

    /// The screen has its 2000 cells and the cursor lies on one of them.
    pub open spec fn wf(&self) -> bool {
        &&& self.cells().len() == BUFFER_CELLS
        &&& 0 <= self.pos() < BUFFER_CELLS
    }

    /// A console at the top left of a screen whose cells are all zero.
    pub fn new(fg_color: Color, bg_color: Color) -> (r: Self)
        ensures
            r.wf(),
            r.pos() == 0,
            r.fg() == fg_color,
            r.bg() == bg_color,
            r.cells() == Seq::new(BUFFER_CELLS as nat, |p: int| 0u16),
    {
        let mut buffer: Vec<u16> = Vec::new();
        while buffer.len() < BUFFER_CELLS
            invariant
                buffer@.len() <= BUFFER_CELLS,
                forall|p: int| 0 <= p < buffer@.len() ==> buffer@[p] == 0u16,
            decreases BUFFER_CELLS - buffer@.len(),
        {
            buffer.push(0);
        }
        assert(buffer@ =~= Seq::new(BUFFER_CELLS as nat, |p: int| 0u16));
        Writer { position: 0, fg_color, bg_color, buffer }
    }

    /// Cursor position.
    pub fn position(&self) -> (r: usize)
        ensures
            r == self.pos(),
    {
        self.position
    }

    /// Contents of cell `position`.
    pub fn buffer_read(&self, position: usize) -> (r: u16)
        requires
            self.wf(),
            position < BUFFER_CELLS,
        ensures
            r == self.cells()[position as int],
    {
        self.buffer[position]
    }

    /// Sets cell `position` to `value`.
    fn buffer_write(&mut self, position: usize, value: u16)
        requires
            old(self).wf(),
            position < BUFFER_CELLS,
        ensures
            final(self).wf(),
            final(self).pos() == old(self).pos(),
            final(self).fg() == old(self).fg(),
            final(self).bg() == old(self).bg(),
            final(self).cells() == old(self).cells().update(position as int, value),
    {
        self.buffer.set(position, value);
    }

    /// Writes the bytes of `string` in order.
    pub fn write_string(&mut self, string: &str)
        requires
            old(self).wf(),
        ensures
            final(self).wf(),
            final(self).fg() == old(self).fg(),
            final(self).bg() == old(self).bg(),
            (final(self).pos(), final(self).cells()) == after_bytes(
                old(self).pos(),
                old(self).cells(),
                string.spec_bytes(),
                old(self).fg(),
                old(self).bg(),
            ),
    {
        let bytes = string.as_bytes();
        let mut i: usize = 0;
        while i < bytes.len()
            invariant
                self.wf(),
                self.fg() == old(self).fg(),
                self.bg() == old(self).bg(),
                i <= bytes@.len(),
                (self.pos(), self.cells()) == after_bytes(
                    old(self).pos(),
                    old(self).cells(),
                    bytes@.subrange(0, i as int),
                    old(self).fg(),
                    old(self).bg(),
                ),
            decreases bytes@.len() - i,
        {
            proof {
                assert(bytes@.subrange(0, i + 1).drop_last() =~= bytes@.subrange(0, i as int));
            }
            self.write_byte(bytes[i]);
            i += 1;
        }
        assert(bytes@.subrange(0, i as int) =~= bytes@);
    }

    /// Writes one byte: a line feed breaks the line, a printable byte is
    /// written, any other byte is written as `~`.
    pub fn write_byte(&mut self, byte: u8)
        requires
            old(self).wf(),
        ensures
            final(self).wf(),
            final(self).fg() == old(self).fg(),
            final(self).bg() == old(self).bg(),
            (final(self).pos(), final(self).cells()) == after_byte(
                old(self).pos(),
                old(self).cells(),
                byte,
                old(self).fg(),
                old(self).bg(),
            ),
    {
        if byte == 10 {
            self.new_line()
        } else if 0x20 <= byte && byte <= 0x7e {
            self.write_ascii_byte(byte)
        } else {
            self.write_ascii_byte(0x7e)
        }
    }

    fn write_ascii_byte(&mut self, byte: u8)
        requires
            old(self).wf(),
        ensures
            final(self).wf(),
            final(self).fg() == old(self).fg(),
            final(self).bg() == old(self).bg(),
            (final(self).pos(), final(self).cells()) == after_ascii(
                old(self).pos(),
                old(self).cells(),
                byte,
                old(self).fg(),
                old(self).bg(),
            ),
    {
        let row = self.position / BUFFER_COLS;
        let col = self.position % BUFFER_COLS;
        if row == BUFFER_ROWS - 1 && col == BUFFER_COLS - 1 {
            self.new_line()
        }
        let attr = pack_color(self.fg_color, self.bg_color);
        let value = (byte as u16) | (attr as u16) << 8;
        proof {
            let a = attr as u16;
            let b = byte as u16;
            assert(b | a << 8u16 == b + 256 * a) by (bit_vector)
                requires
                    b < 256,
                    a < 256,
            ;
        }
        self.buffer_write(self.position, value);
        let next = self.position + 1;
        self.position = if next < BUFFER_COLS * BUFFER_ROWS - 1 {
            next
        } else {
            BUFFER_COLS * BUFFER_ROWS - 1
        };
    }

    /// Moves the cursor to the start of the next row; on the last row the
    /// screen scrolls up by one row first.
    pub fn new_line(&mut self)
        requires
            old(self).wf(),
        ensures
            final(self).wf(),
            final(self).fg() == old(self).fg(),
            final(self).bg() == old(self).bg(),
            (final(self).pos(), final(self).cells()) == after_new_line(
                old(self).pos(),
                old(self).cells(),
                old(self).bg(),
            ),
    {
        let row = self.position / BUFFER_COLS;
        if row < BUFFER_ROWS - 1 {
            self.position = (row + 1) * BUFFER_COLS;
            return ;
        }
        self.scroll_content();
        self.position = (BUFFER_ROWS - 1) * BUFFER_COLS;
    }

    /// Moves every row up by one and fills the last row with `scroll_fill`.
    pub fn scroll_content(&mut self)
        requires
            old(self).wf(),
        ensures
            final(self).wf(),
            final(self).pos() == old(self).pos(),
            final(self).fg() == old(self).fg(),
            final(self).bg() == old(self).bg(),
            final(self).cells() == scrolled(old(self).cells(), old(self).bg()),
    {
        let ghost before = self.cells();
        for pos in 0..BUFFER_COLS * (BUFFER_ROWS - 1)
            invariant
                self.wf(),
                self.pos() == old(self).pos(),
                self.fg() == old(self).fg(),
                self.bg() == old(self).bg(),
                before == old(self).cells(),
                forall|p: int| 0 <= p < pos ==> self.cells()[p] == before[p + 80],
                forall|p: int| pos <= p < BUFFER_CELLS ==> self.cells()[p] == before[p],
        {
            let val = self.buffer_read(pos + BUFFER_COLS);
            self.buffer_write(pos, val);
        }
        // clear last line
        let base = (BUFFER_ROWS - 1) * BUFFER_COLS;
        let fill = (color_code(self.bg_color) as u16) << 4;
        proof {
            let c = color_value(self.bg_color) as u16;
            assert(c << 4u16 == c * 16) by (bit_vector)
                requires
                    c < 16,
            ;
        }
        for col in 0..BUFFER_COLS
            invariant
                self.wf(),
                self.pos() == old(self).pos(),
                self.fg() == old(self).fg(),
                self.bg() == old(self).bg(),
                base == 1920,
                fill == scroll_fill(self.bg()),
                forall|p: int| 0 <= p < 1920 ==> self.cells()[p] == before[p + 80],
                forall|p: int| 1920 <= p < 1920 + col ==> self.cells()[p] == fill,
        {
            self.buffer_write(base + col, fill);
        }
        assert(self.cells() =~= scrolled(before, self.bg()));
    }
}

} // verus!
