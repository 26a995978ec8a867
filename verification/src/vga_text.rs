use vstd::prelude::*;
use vstd::string::StringSliceAdditionalSpecFns;

pub use crate::text_buffer::Color;
use crate::text_buffer::{
    after_byte,
    after_bytes,
    after_new_line,
    attribute,
    blank_cell,
    cell_value,
    pack_color,
    scrolled,
    Writer,
    BUFFER_CELLS,
};

verus! {

/// Attribute byte for the colors: background high, foreground low.
pub fn compose_color(foreground: Color, background: Color) -> (r: u8)
    ensures
        r == attribute(foreground, background),
{
    pack_color(foreground, background)
}

/// Screen cell holding `byte` in the given colors.
pub fn compose_byte(byte: u8, fg_color: Color, bg_color: Color) -> (r: u16)
    ensures
        r == cell_value(byte, fg_color, bg_color),
{
    let attr = compose_color(fg_color, bg_color);
    let b = byte as u16;
    let a = attr as u16;
    assert(b | a << 8u16 == b + 256 * a) by (bit_vector)
        requires
            b < 256,
            a < 256,
    ;
    b | a << 8
}

/// The kernel's console on the VGA text screen.
pub struct TerminalWriter {
    writer: Writer,
}

impl TerminalWriter {
    pub closed spec fn pos(&self) -> int {
        self.writer.pos()
    }

    pub closed spec fn cells(&self) -> Seq<u16> {
        self.writer.cells()
    }

    pub closed spec fn fg(&self) -> Color {
        self.writer.fg()
    }

    pub closed spec fn bg(&self) -> Color {
        self.writer.bg()
    }

    /// The screen has its 2000 cells and the cursor lies on one of them.
    pub open spec fn wf(&self) -> bool {
        &&& self.cells().len() == BUFFER_CELLS
        &&& 0 <= self.pos() < BUFFER_CELLS
    }

    /// A console at the top left of a screen whose cells are all zero.
    pub fn new(fg_color: Color, bg_color: Color) -> (r: Self)
        ensures
            r.wf(),
            r.pos() == 0,
            r.fg() == fg_color,
            r.bg() == bg_color,
            r.cells() == Seq::new(BUFFER_CELLS as nat, |p: int| 0u16),
    {
        TerminalWriter { writer: Writer::new(fg_color, bg_color) }
    }

    /// Cursor position.
    pub fn position(&self) -> (r: usize)
        ensures
            r == self.pos(),
    {
        self.writer.position()
    }

    /// Contents of cell `position`.
    pub fn vga_memory_read(&self, position: usize) -> (r: u16)
        requires
            self.wf(),
            position < BUFFER_CELLS,
        ensures
            r == self.cells()[position as int],
    {
        self.writer.buffer_read(position)
    }

    /// Writes the bytes of `string` in order.
    pub fn write_string(&mut self, string: &str)
        requires
            old(self).wf(),
        ensures
            final(self).wf(),
            final(self).fg() == old(self).fg(),
            final(self).bg() == old(self).bg(),
            (final(self).pos(), final(self).cells()) == after_bytes(
                old(self).pos(),
                old(self).cells(),
                string.spec_bytes(),
                old(self).fg(),
                old(self).bg(),
            ),
    {
        self.writer.write_string(string)
    }

    /// Writes one byte: a line feed breaks the line, a printable byte is
    /// written, any other byte is written as `~`.
    pub fn write_byte(&mut self, byte: u8)
        requires
            old(self).wf(),
        ensures
            final(self).wf(),
            final(self).fg() == old(self).fg(),
            final(self).bg() == old(self).bg(),
            (final(self).pos(), final(self).cells()) == after_byte(
                old(self).pos(),
                old(self).cells(),
                byte,
                old(self).fg(),
                old(self).bg(),
            ),
    {
        self.writer.write_byte(byte)
    }

    /// Moves the cursor to the start of the next row, scrolling on the last row.
    pub fn new_line(&mut self)
        requires
            old(self).wf(),
        ensures
            final(self).wf(),
            final(self).fg() == old(self).fg(),
            final(self).bg() == old(self).bg(),
            (final(self).pos(), final(self).cells()) == after_new_line(
                old(self).pos(),
                old(self).cells(),
                old(self).bg(),
            ),
    {
        self.writer.new_line()
    }

    /// Moves every row up by one and fills the last row.
    pub fn scroll_content(&mut self)
        requires
            old(self).wf(),
        ensures
            final(self).wf(),
            final(self).pos() == old(self).pos(),
            final(self).fg() == old(self).fg(),
            final(self).bg() == old(self).bg(),
            final(self).cells() == scrolled(old(self).cells(), old(self).bg()),
    {
        self.writer.scroll_content()
    }
}

/// The screen with every cell set to `blank_cell(color)`.
pub fn clear_with_background(terminal: &mut TerminalWriter, color: Color)
    requires
        old(terminal).wf(),
    ensures
        final(terminal).wf(),
        final(terminal).pos() == old(terminal).pos(),
        final(terminal).fg() == old(terminal).fg(),
        final(terminal).bg() == old(terminal).bg(),
        final(terminal).cells() == Seq::new(BUFFER_CELLS as nat, |p: int| blank_cell(color)),
{
    crate::text_buffer::clear_with_background(&mut terminal.writer, color)
}

/// Clears the screen to black.
pub fn clear(terminal: &mut TerminalWriter)
    requires
        old(terminal).wf(),
    ensures
        final(terminal).wf(),
        final(terminal).pos() == old(terminal).pos(),
        final(terminal).fg() == old(terminal).fg(),
        final(terminal).bg() == old(terminal).bg(),
        final(terminal).cells() == Seq::new(
            BUFFER_CELLS as nat,
            |p: int| blank_cell(Color::Black),
        ),
{
    clear_with_background(terminal, Color::Black)
}

} // verus!
