use corrosium::text_buffer::{clear, clear_with_background, pack_color, Color, Writer};
use corrosium::vga_text::{self, compose_byte, compose_color, TerminalWriter};

fn cells(w: &Writer) -> Vec<u16> {
    (0..2000).map(|i| w.buffer_read(i)).collect()
}

#[test]
fn colors_pack_background_high() {
    assert_eq!(pack_color(Color::White, Color::Black), 0x0f);
    assert_eq!(pack_color(Color::Yellow, Color::Blue), 0x1e);
    assert_eq!(compose_color(Color::LightGreen, Color::Red), 0x4a);
    assert_eq!(compose_byte(b'A', Color::White, Color::Blue), 0x1f41);
}

#[test]
fn printable_bytes_land_at_the_cursor() {
    let mut w = Writer::new(Color::White, Color::Black);
    w.write_string("hi");
    assert_eq!(w.position(), 2);
    assert_eq!(w.buffer_read(0), 0x0f68);
    assert_eq!(w.buffer_read(1), 0x0f69);
    assert_eq!(w.buffer_read(2), 0);
}

#[test]
fn line_feed_moves_to_the_next_row() {
    let mut w = Writer::new(Color::White, Color::Black);
    w.write_string("ab\ncd");
    assert_eq!(w.position(), 82);
    assert_eq!(w.buffer_read(80), 0x0f63);
    w.new_line();
    assert_eq!(w.position(), 160);
}

#[test]
fn other_bytes_print_as_tilde() {
    let mut w = Writer::new(Color::Green, Color::Black);
    w.write_byte(0x07);
    w.write_byte(0xff);
    assert_eq!(w.buffer_read(0), 0x027e);
    assert_eq!(w.buffer_read(1), 0x027e);
}

#[test]
fn last_row_scrolls() {
    let mut w = Writer::new(Color::White, Color::Blue);
    for _ in 0..24 {
        w.write_string("x\n");
    }
    assert_eq!(w.position(), 1920);
    w.write_string("y");
    assert_eq!(w.buffer_read(1920), 0x1f79);
    w.write_byte(b'\n');
    assert_eq!(w.position(), 1920);
    // rows moved up by one; the new last row holds the background code
    assert_eq!(w.buffer_read(1840), 0x1f79);
    assert_eq!(w.buffer_read(0), 0x1f78);
    assert_eq!(w.buffer_read(1920), 0x10);
    assert_eq!(w.buffer_read(1999), 0x10);
}

#[test]
fn writing_past_the_last_cell_scrolls_first() {
    let mut w = Writer::new(Color::White, Color::Black);
    let text: String = std::iter::repeat('a').take(1999).collect();
    w.write_string(&text);
    // the cursor stops at the last cell, which is never written
    assert_eq!(w.position(), 1999);
    assert_eq!(w.buffer_read(1998), 0x0f61);
    assert_eq!(w.buffer_read(1999), 0);
    w.write_string("b");
    assert_eq!(w.position(), 1921);
    assert_eq!(w.buffer_read(1920), 0x0f62);
    assert_eq!(w.buffer_read(1918), 0x0f61);
    assert_eq!(w.buffer_read(1919), 0);
    assert_eq!(w.buffer_read(1921), 0x00);
}

#[test]
fn string_equals_its_bytes() {
    let mut a = Writer::new(Color::White, Color::Black);
    let mut b = Writer::new(Color::White, Color::Black);
    a.write_string("one\ntwo");
    a.write_string("three");
    for byte in "one\ntwothree".bytes() {
        b.write_byte(byte);
    }
    assert_eq!(a.position(), b.position());
    assert_eq!(cells(&a), cells(&b));
}

#[test]
fn clear_fills_with_background() {
    let mut w = Writer::new(Color::White, Color::Black);
    w.write_string("abc");
    clear_with_background(&mut w, Color::Cyan);
    assert!(cells(&w).iter().all(|c| *c == 0x3000));
    assert_eq!(w.position(), 3);
    clear(&mut w);
    assert!(cells(&w).iter().all(|c| *c == 0));
}

#[test]
fn terminal_writer_behaves_like_the_writer() {
    let mut t = TerminalWriter::new(Color::Yellow, Color::Black);
    t.write_string("ok\n!");
    assert_eq!(t.position(), 81);
    assert_eq!(t.vga_memory_read(0), 0x0e6f);
    assert_eq!(t.vga_memory_read(80), 0x0e21);
    t.scroll_content();
    assert_eq!(t.vga_memory_read(0), 0x0e21);
    vga_text::clear_with_background(&mut t, Color::Red);
    assert_eq!(t.vga_memory_read(5), 0x4000);
    vga_text::clear(&mut t);
    assert_eq!(t.vga_memory_read(5), 0);
}
