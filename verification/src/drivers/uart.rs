//! The NS16550A serial port, driven by polling.
//!
//! The driver decides which register access comes next; whoever owns the bus performs it and
//! hands back what it read. A `Transmitter` sends a message byte by byte, waiting for the
//! transmit holding register to empty before each byte; a `LineEditor` turns the bytes typed on
//! the terminal into a line, with erasing, and says what to echo back.

use vstd::prelude::*;
use vstd::string::*;
use vstd::utf8::{encode_scalar, leading_byte_width_2, last_continuation_byte};
use crate::boards::UART_BASE;
use crate::hal::mmio::Access;

verus! {

/// Offset of the line status register from the base of the UART.
pub const LINE_STATUS: usize = 5;

/// Line status bit: a received byte is waiting in the receive buffer.
pub const DATA_READY: u8 = 0x01;

/// Line status bit: the transmit holding register is empty.
pub const TRANSMIT_EMPTY: u8 = 0x20;

/// Line feed, which ends a line and is echoed when one ends.
pub const LINE_FEED: u8 = 10;

/// Carriage return, which also ends a line.
pub const CARRIAGE_RETURN: u8 = 13;

/// Backspace, which erases the last character.
pub const BACKSPACE: u8 = 8;

/// Delete, which erases the last character too.
pub const DELETE: u8 = 127;

/// The line status `status` says the UART can take a byte to send.
pub open spec fn transmit_ready(status: u8) -> bool {
    status & TRANSMIT_EMPTY != 0
}

/// The line status `status` says a received byte is waiting.
pub open spec fn data_ready(status: u8) -> bool {
    status & DATA_READY == DATA_READY
}

/// The serial port at `UART_BASE`.
pub struct UART;

/// A message being sent: `sent` of its bytes are out.
pub struct Transmitter {
    bytes: Vec<u8>,
    sent: usize,
}

/// The abstract state of a transmitter.
pub struct TransmitterView {
    pub bytes: Seq<u8>,
    pub sent: int,
}

impl View for Transmitter {
    type V = TransmitterView;

    closed spec fn view(&self) -> TransmitterView {
        TransmitterView { bytes: self.bytes@, sent: self.sent as int }
    }
}

/// One step of sending: given the line status last read for the byte in flight (0 before the
/// first read), the next access and the state after it. Once every byte is out there is none;
/// while the UART is busy the line status is read again; when it is free the next byte is
/// written to the data register.
pub open spec fn transmit_step(t: TransmitterView, status: u8) -> (TransmitterView, Option<Access>) {
    if t.sent >= t.bytes.len() {
        (t, None)
    } else if transmit_ready(status) {
        (
            TransmitterView { bytes: t.bytes, sent: t.sent + 1 },
            Some(Access::Write { addr: UART_BASE, value: t.bytes[t.sent] }),
        )
    } else {
        (t, Some(Access::Read { addr: (UART_BASE + LINE_STATUS) as usize }))
    }
}

/// Runs the transmitter through a sequence of line status values, one per step; gives the state
/// at the end and the bytes written to the data register, in order.
pub open spec fn transmit_run(t: TransmitterView, statuses: Seq<u8>) -> (TransmitterView, Seq<u8>)
    decreases statuses.len(),
{
    if statuses.len() == 0 {
        (t, Seq::empty())
    } else {
        let (next, access) = transmit_step(t, statuses[0]);
        let (last, written) = transmit_run(next, statuses.drop_first());
        match access {
            Some(Access::Write { addr, value }) => (last, seq![value] + written),
            _ => (last, written),
        }
    }
}

impl Transmitter {
    /// No more bytes are out than the message has.
    pub open spec fn wf(&self) -> bool {
        0 <= self@.sent <= self@.bytes.len()
    }

    /// A transmitter for `bytes`, none of them sent yet.
    pub fn new(bytes: Vec<u8>) -> (t: Transmitter)
        ensures
            t.wf(),
            t@ == (TransmitterView { bytes: bytes@, sent: 0 }),
    {
        Transmitter { bytes, sent: 0 }
    }

    /// Takes one step of sending (see `transmit_step`).
    pub fn step(&mut self, status: u8) -> (access: Option<Access>)
        requires
            old(self).wf(),
        ensures
            final(self).wf(),
            (final(self)@, access) == transmit_step(old(self)@, status),
    {
        if self.sent >= self.bytes.len() {
            None
        } else if status & TRANSMIT_EMPTY != 0 {
            let value = self.bytes[self.sent];
            self.sent = self.sent + 1;
            Some(Access::Write { addr: UART_BASE, value })
        } else {
            Some(Access::Read { addr: UART_BASE + LINE_STATUS })
        }
    }

    /// Whether every byte of the message is out.
    pub fn is_done(&self) -> (done: bool)
        requires
            self.wf(),
        ensures
            done == (self@.sent == self@.bytes.len()),
    {
        self.sent == self.bytes.len()
    }
}

/// Whatever the line status values read, a transmitter writes the bytes of its message, in
/// order, from the first one not yet sent, and nothing else; it never goes past the end.
pub proof fn lemma_transmit_writes_message(t: TransmitterView, statuses: Seq<u8>)
    requires
        0 <= t.sent <= t.bytes.len(),
    ensures
        ({
            let (last, written) = transmit_run(t, statuses);
            &&& last.bytes == t.bytes
            &&& t.sent <= last.sent <= t.bytes.len()
            &&& written == t.bytes.subrange(t.sent, last.sent)
        }),
    decreases statuses.len(),
{
    if statuses.len() > 0 {
        let (next, access) = transmit_step(t, statuses[0]);
        lemma_transmit_writes_message(next, statuses.drop_first());
        let (last, written) = transmit_run(next, statuses.drop_first());
        if t.sent < t.bytes.len() && transmit_ready(statuses[0]) {
            assert(seq![t.bytes[t.sent]] + t.bytes.subrange(t.sent + 1, last.sent) =~= t.bytes.subrange(
                t.sent,
                last.sent,
            ));
        }
    } else {
        assert(t.bytes.subrange(t.sent, t.sent) =~= Seq::<u8>::empty());
    }
}

/// A transmitter that is given a free line status at every step sends the whole message in as
/// many steps as it has bytes.
pub proof fn lemma_transmit_completes(t: TransmitterView, statuses: Seq<u8>)
    requires
        t.sent == 0,
        statuses.len() == t.bytes.len(),
        forall|i: int| 0 <= i < statuses.len() ==> transmit_ready(#[trigger] statuses[i]),
    ensures
        transmit_run(t, statuses).0.sent == t.bytes.len(),
        transmit_run(t, statuses).1 == t.bytes,
{
    lemma_transmit_ready_run(t, statuses);
    assert(t.bytes.subrange(0, t.bytes.len() as int) =~= t.bytes);
}

proof fn lemma_transmit_ready_run(t: TransmitterView, statuses: Seq<u8>)
    requires
        0 <= t.sent,
        t.sent + statuses.len() == t.bytes.len(),
        forall|i: int| 0 <= i < statuses.len() ==> transmit_ready(#[trigger] statuses[i]),
    ensures
        transmit_run(t, statuses).0.sent == t.bytes.len(),
        transmit_run(t, statuses).1 == t.bytes.subrange(t.sent, t.bytes.len() as int),
    decreases statuses.len(),
{
    if statuses.len() > 0 {
        assert(transmit_ready(statuses[0]));
        let next = transmit_step(t, statuses[0]).0;
        let rest = statuses.drop_first();
        assert forall|i: int| 0 <= i < rest.len() implies transmit_ready(#[trigger] rest[i]) by {
            assert(rest[i] == statuses[i + 1]);
        }
        lemma_transmit_ready_run(next, rest);
        assert(seq![t.bytes[t.sent]] + t.bytes.subrange(t.sent + 1, t.bytes.len() as int)
            =~= t.bytes.subrange(t.sent, t.bytes.len() as int));
    } else {
        assert(t.bytes.subrange(t.sent, t.sent) =~= Seq::<u8>::empty());
    }
}

/// The bytes of `s` followed by a line feed.
pub open spec fn with_line_feed(s: &str) -> Seq<u8> {
    s.spec_bytes().push(LINE_FEED)
}

impl UART {
    /// The serial port.
    pub fn new() -> UART {
        UART
    }

    /// Sends one byte.
    pub fn put_char(&self, character: u8) -> (t: Transmitter)
        ensures
            t.wf(),
            t@ == (TransmitterView { bytes: seq![character], sent: 0 }),
    {
        let mut bytes = Vec::new();
        bytes.push(character);
        proof {
            assert(bytes@ =~= seq![character]);
        }
        Transmitter::new(bytes)
    }

    /// Sends the UTF-8 bytes of `string`.
    pub fn put_str(&self, string: &str) -> (t: Transmitter)
        ensures
            t.wf(),
            t@ == (TransmitterView { bytes: string.spec_bytes(), sent: 0 }),
    {
        Transmitter::new(string.as_bytes_vec())
    }

    /// Sends the UTF-8 bytes of `string`, then a line feed.
    pub fn put_str_ln(&self, string: &str) -> (t: Transmitter)
        ensures
            t.wf(),
            t@ == (TransmitterView { bytes: with_line_feed(string), sent: 0 }),
    {
        let mut bytes = string.as_bytes_vec();
        bytes.push(LINE_FEED);
        Transmitter::new(bytes)
    }

    /// Given the line status just read, the access that fetches a received byte, or `None` when
    /// no byte is waiting.
    pub fn try_get_char(&self, status: u8) -> (next: Option<Access>)
        ensures
            next == (if data_ready(status) {
                Some(Access::Read { addr: UART_BASE })
            } else {
                None
            }),
    {
        if status & DATA_READY == DATA_READY {
            Some(Access::Read { addr: UART_BASE })
        } else {
            None
        }
    }
}

/// The byte ends the line.
pub open spec fn is_line_end(byte: u8) -> bool {
    byte == CARRIAGE_RETURN || byte == LINE_FEED
}

/// The byte erases the last character.
pub open spec fn is_erase(byte: u8) -> bool {
    byte == DELETE || byte == BACKSPACE
}

/// The line after `byte` is typed: a line end leaves it as it is, an erase drops its last
/// character (if any), and any other byte adds the character with that code.
pub open spec fn edit_line(line: Seq<char>, byte: u8) -> Seq<char> {
    if is_line_end(byte) {
        line
    } else if is_erase(byte) {
        if line.len() > 0 {
            line.drop_last()
        } else {
            line
        }
    } else {
        line.push(byte as char)
    }
}

/// What the terminal is sent back when `byte` is typed on `line`: a line feed for a line end,
/// backspace-space-backspace for an erase that drops a character, nothing for an erase on an
/// empty line, and the UTF-8 encoding of the typed character otherwise.
pub open spec fn echo_bytes(line: Seq<char>, byte: u8) -> Seq<u8> {
    if is_line_end(byte) {
        seq![LINE_FEED]
    } else if is_erase(byte) {
        if line.len() > 0 {
            seq![BACKSPACE, 0x20u8, BACKSPACE]
        } else {
            Seq::empty()
        }
    } else {
        encode_scalar(byte as u32)
    }
}

/// The line after each of `bytes` is typed in turn, starting from `line`.
pub open spec fn edit_all(line: Seq<char>, bytes: Seq<u8>) -> Seq<char>
    decreases bytes.len(),
{
    if bytes.len() == 0 {
        line
    } else {
        edit_all(edit_line(line, bytes[0]), bytes.drop_first())
    }
}

/// No character of the line ends a line or erases one.
pub open spec fn clean_line(line: Seq<char>) -> bool {
    forall|i: int|
        0 <= i < line.len() ==> !is_line_end(#[trigger] line[i] as u8) && !is_erase(line[i] as u8)
            && (line[i] as u32) < 0x100
}

/// A line being typed.
pub struct LineEditor {
    line: Vec<char>,
}

/// What one typed byte gives: whether the line is complete, and the bytes to echo.
pub struct Keystroke {
    pub finished: bool,
    pub echo: Vec<u8>,
}

impl View for LineEditor {
    type V = Seq<char>;

    closed spec fn view(&self) -> Seq<char> {
        self.line@
    }
}

impl LineEditor {
    /// An empty line.
    pub fn new() -> (e: LineEditor)
        ensures
            e@ == Seq::<char>::empty(),
    {
        LineEditor { line: Vec::new() }
    }

    /// Takes the byte `byte` typed on the terminal.
    pub fn feed(&mut self, byte: u8) -> (k: Keystroke)
        ensures
            final(self)@ == edit_line(old(self)@, byte),
            k.finished == is_line_end(byte),
            k.echo@ == echo_bytes(old(self)@, byte),
    {
        let mut echo: Vec<u8> = Vec::new();
        if byte == CARRIAGE_RETURN || byte == LINE_FEED {
            echo.push(LINE_FEED);
            proof {
                assert(echo@ =~= seq![LINE_FEED]);
            }
            return Keystroke { finished: true, echo };
        }
        if byte == DELETE || byte == BACKSPACE {
            if self.line.len() > 0 {
                self.line.pop();
                echo.push(BACKSPACE);
                echo.push(0x20);
                echo.push(BACKSPACE);
                proof {
                    assert(echo@ =~= seq![BACKSPACE, 0x20u8, BACKSPACE]);
                }
            }
            proof {
                assert(echo@ =~= echo_bytes(old(self)@, byte));
            }
            return Keystroke { finished: false, echo };
        }
        self.line.push(byte as char);
        if byte < 0x80 {
            echo.push(byte);
            proof {
                assert(byte as u32 & 0x7F == byte as u32) by (bit_vector)
                    requires
                        byte < 0x80,
                ;
                assert(echo@ =~= encode_scalar(byte as u32));
            }
        } else {
            let lead = 0xC0 | (byte >> 6);
            let cont = 0x80 | (byte & 0x3F);
            echo.push(lead);
            echo.push(cont);
            proof {
                let b = byte as u32;
                assert(lead == 0xC0 | ((b >> 6) & 0x1F) as u8) by (bit_vector)
                    requires
                        lead == 0xC0 | (byte >> 6),
                        b == byte as u32,
                ;
                assert(cont == 0x80 | (b & 0x3F) as u8) by (bit_vector)
                    requires
                        cont == 0x80 | (byte & 0x3F),
                        b == byte as u32,
                ;
                assert(lead == leading_byte_width_2(b));
                assert(cont == last_continuation_byte(b));
                assert(echo@ =~= encode_scalar(b));
            }
        }
        Keystroke { finished: false, echo }
    }

    /// The characters typed so far.
    pub fn line(&self) -> (chars: Vec<char>)
        ensures
            chars@ == self@,
    {
        self.line.clone()
    }
}

/// Only carriage return (13) and line feed (10) end a line; backspace (8) and delete (127) drop
/// the last character and echo backspace, space, backspace; every other byte is added to the
/// line as the character with that code, without ending it, and an ASCII byte echoes as itself.
pub proof fn lemma_typed_bytes(line: Seq<char>, byte: u8)
    ensures
        is_line_end(byte) <==> (byte == 13 || byte == 10),
        (byte == 13 || byte == 10) ==> edit_line(line, byte) == line && echo_bytes(line, byte) == seq![10u8],
        (byte == 8 || byte == 127) && line.len() > 0 ==> edit_line(line, byte) == line.subrange(0, line.len() - 1)
            && echo_bytes(line, byte) == seq![8u8, 32u8, 8u8],
        (byte == 8 || byte == 127) && line.len() == 0 ==> edit_line(line, byte) == line
            && echo_bytes(line, byte).len() == 0,
        byte != 13 && byte != 10 && byte != 8 && byte != 127 ==> edit_line(line, byte).len() == line.len() + 1
            && edit_line(line, byte).subrange(0, line.len() as int) == line
            && edit_line(line, byte)[line.len() as int] as u32 == byte as u32,
        byte != 13 && byte != 10 && byte != 8 && byte != 127 && byte < 0x80 ==> echo_bytes(line, byte) == seq![byte],
{
    if byte != 13 && byte != 10 && byte != 8 && byte != 127 {
        assert(line.push(byte as char).subrange(0, line.len() as int) =~= line);
        if byte < 0x80 {
            assert(byte as u32 & 0x7F == byte as u32) by (bit_vector)
                requires
                    byte < 0x80,
            ;
            assert(echo_bytes(line, byte) =~= seq![byte]);
        }
    }
}

/// Erasing right after typing a character gives back the line as it was.
pub proof fn lemma_erase_undoes_typing(line: Seq<char>, byte: u8, erase: u8)
    requires
        !is_line_end(byte),
        !is_erase(byte),
        is_erase(erase),
    ensures
        edit_line(edit_line(line, byte), erase) == line,
{
    assert(line.push(byte as char).drop_last() =~= line);
}

/// A line only ever holds characters that were typed as themselves: never a line end, never an
/// erase, and always one of the first 256 code points.
pub proof fn lemma_edit_keeps_line_clean(line: Seq<char>, byte: u8)
    requires
        clean_line(line),
    ensures
        clean_line(edit_line(line, byte)),
{
    let after = edit_line(line, byte);
    assert forall|i: int| 0 <= i < after.len() implies !is_line_end(#[trigger] after[i] as u8)
        && !is_erase(after[i] as u8) && (after[i] as u32) < 0x100 by {
        if i < line.len() {
            assert(after[i] == line[i]);
        } else {
            assert(after[i] == byte as char);
        }
    }
}

} // verus!
