use lib::boards::UART_BASE;
use lib::drivers::uart::{LineEditor, UART};
use lib::hal::mmio::Access;

const LSR: usize = UART_BASE + 5;

#[test]
fn put_str_waits_for_the_line_then_writes_each_byte() {
    let uart = UART::new();
    let mut t = uart.put_str("hi");
    assert!(!t.is_done());
    assert_eq!(t.step(0), Some(Access::Read { addr: LSR }));
    assert_eq!(t.step(0x01), Some(Access::Read { addr: LSR }));
    assert_eq!(t.step(0x20), Some(Access::Write { addr: UART_BASE, value: b'h' }));
    assert_eq!(t.step(0x60), Some(Access::Write { addr: UART_BASE, value: b'i' }));
    assert!(t.is_done());
    assert_eq!(t.step(0x20), None);
}

#[test]
fn put_char_and_put_str_ln() {
    let uart = UART::new();
    let mut c = uart.put_char(b'x');
    assert_eq!(c.step(0xFF), Some(Access::Write { addr: UART_BASE, value: b'x' }));
    assert_eq!(c.step(0xFF), None);
    let mut l = uart.put_str_ln("é");
    let mut written = Vec::new();
    while let Some(access) = l.step(0x20) {
        if let Access::Write { value, .. } = access {
            written.push(value);
        }
    }
    assert_eq!(written, vec![0xC3, 0xA9, b'\n']);
}

#[test]
fn try_get_char_reads_data_only_when_ready() {
    let uart = UART::new();
    assert_eq!(uart.try_get_char(0x61), Some(Access::Read { addr: UART_BASE }));
    assert_eq!(uart.try_get_char(0x60), None);
    assert_eq!(uart.try_get_char(0x00), None);
}

#[test]
fn line_editor_types_erases_and_finishes() {
    let mut e = LineEditor::new();
    let k = e.feed(b'a');
    assert!(!k.finished);
    assert_eq!(k.echo, vec![b'a']);
    let k = e.feed(b'b');
    assert_eq!(k.echo, vec![b'b']);
    let k = e.feed(127);
    assert_eq!(k.echo, vec![8, b' ', 8]);
    assert_eq!(e.line(), vec!['a']);
    let k = e.feed(8);
    assert_eq!(k.echo, vec![8, b' ', 8]);
    // Erasing an empty line echoes nothing.
    let k = e.feed(8);
    assert!(k.echo.is_empty());
    assert!(e.line().is_empty());
    let k = e.feed(0xE9);
    assert_eq!(k.echo, vec![0xC3, 0xA9]);
    assert_eq!(e.line(), vec!['é']);
    let k = e.feed(b'\r');
    assert!(k.finished);
    assert_eq!(k.echo, vec![b'\n']);
    let k = e.feed(b'\n');
    assert!(k.finished);
    assert_eq!(e.line(), vec!['é']);
}
