//! A minimal 16550 UART driver for COM1, whose output is mirrored to the
//! screen.

use crate::kernel::console::{texts_are_drawn_in_order, wrote, Console, ConsoleState};
use crate::kernel::font::Font;
use crate::kernel::port::{sends, PortWrite};
use vstd::prelude::*;

verus! {

/// Base I/O port of COM1 on a PC.
pub const COM1: u16 = 0x3F8;

/// The port a byte to send is written to.
pub const DATA_PORT: u16 = 0x3F8;

/// The port the line status is read from.
pub const LINE_STATUS_PORT: u16 = 0x3FD;

/// The transmit holding register is empty: the UART can take another byte.
pub const LINE_STATUS_THR_EMPTY: u8 = 0x20;

/// The writes that set COM1 up, in order: its registers are at these offsets
/// from the base port.
pub open spec fn setup_writes() -> Seq<PortWrite> {
    seq![
        sends(0x3F9, 0x00),
        sends(0x3FB, 0x80),
        sends(0x3F8, 0x03),
        sends(0x3F9, 0x00),
        sends(0x3FB, 0x03),
        sends(0x3FA, 0xC7),
        sends(0x3FC, 0x0B),
    ]
}

/// Set COM1 to 38400 baud, 8 data bits, no parity, 1 stop bit: the writes to
/// make, in order, once.
///
/// The firmware may have left the UART in any state, so this reconfigures it
/// from scratch.
pub fn init() -> (writes: [PortWrite; 7])
    ensures
        writes@ == setup_writes(),
{
    let writes: [PortWrite; 7] = [
        // Mask all UART interrupts: this driver is polled.
        PortWrite { port: COM1 + 1, value: 0x00 },
        // The first two registers become the baud divisor.
        PortWrite { port: COM1 + 3, value: 0x80 },
        // Divisor 3 = 115200 / 3 = 38400 baud. Low byte, then high byte.
        PortWrite { port: COM1, value: 0x03 },
        PortWrite { port: COM1 + 1, value: 0x00 },
        // Back to the data registers, and 8N1 in the same write.
        PortWrite { port: COM1 + 3, value: 0x03 },
        // Enable and clear the FIFOs, with a 14-byte interrupt threshold.
        PortWrite { port: COM1 + 2, value: 0xC7 },
        // Assert DTR and RTS, and enable OUT2.
        PortWrite { port: COM1 + 4, value: 0x0B },
    ];
    assert(writes@ =~= setup_writes());
    writes
}

/// Whether the UART can take another byte, by its line status.
pub fn ready_to_send(line_status: u8) -> (ready: bool)
    ensures
        ready == (line_status / 0x20 % 2 == 1),
{
    assert(line_status & 0x20 != 0 <==> line_status / 0x20 % 2 == 1) by (bit_vector);
    line_status & LINE_STATUS_THR_EMPTY != 0
}

/// What goes over the wire for one byte: a line feed gets a carriage return
/// in front.
pub open spec fn wired(byte: u8) -> Seq<u8> {
    if byte == 0x0a {
        seq![0x0du8, 0x0a]
    } else {
        seq![byte]
    }
}

/// What goes over the wire for a text.
pub open spec fn wired_text(text: Seq<u8>) -> Seq<u8>
    decreases text.len(),
{
    if text.len() == 0 {
        Seq::empty()
    } else {
        wired_text(text.drop_last()) + wired(text.last())
    }
}

/// Drawing what goes over the wire for one byte is drawing the byte, after a
/// carriage return that changes nothing.
proof fn lemma_wired_byte(state: ConsoleState, screen: Seq<u32>, font: Font, byte: u8)
    ensures
        state.after_text(wired(byte)) == state.after_byte(byte),
        state.screen_after_text(screen, font, wired(byte)) == state.screen_after(screen, font, byte),
        state.after_byte(0x0d) == state,
        state.screen_after(screen, font, 0x0d) == screen,
{
    reveal_with_fuel(ConsoleState::after_text, 3);
    reveal_with_fuel(ConsoleState::screen_after_text, 3);
    let bytes = wired(byte);
    if byte == 0x0a {
        assert(bytes.drop_last() =~= seq![0x0du8]);
        assert(bytes.drop_last().drop_last() =~= Seq::<u8>::empty());
    } else {
        assert(bytes.drop_last() =~= Seq::<u8>::empty());
    }
}

/// A handle on the serial line.
pub struct SerialPort;

impl SerialPort {
    /// What to send for one byte: the carriage return in front of it, if it
    /// needs one, and the byte itself.
    ///
    /// Terminals expect CRLF; strings carry a bare line feed.
    pub fn write_byte(&self, byte: u8) -> (sent: (Option<u8>, u8))
        ensures
            wired(byte) == (match sent.0 {
                Some(first) => seq![first, sent.1],
                None => seq![sent.1],
            }),
    {
        if byte == 0x0a {
            (Some(0x0d), byte)
        } else {
            (None, byte)
        }
    }

    /// Mirror one byte to the screen, if there is a console, and say what to
    /// send for it: every byte that goes over the wire is drawn too.
    pub fn mirror_byte(
        &self,
        console: &mut Option<Console>,
        screen: &mut [u32],
        font: &Font,
        byte: u8,
    ) -> (sent: (Option<u8>, u8))
        requires
            *old(console) matches Some(console) ==> console.wf(old(screen)@.len()),
        ensures
            wired(byte) == (match sent.0 {
                Some(first) => seq![first, sent.1],
                None => seq![sent.1],
            }),
            wrote(
                *old(console),
                *final(console),
                old(screen)@,
                final(screen)@,
                *font,
                wired(byte),
            ),
    {
        let (first, last) = self.write_byte(byte);
        proof {
            if *console is Some {
                lemma_wired_byte((*console)->0.state(), screen@, *font, byte);
            }
        }
        match first {
            Some(first) => {
                crate::kernel::console::write_byte(console, screen, font, first);
                crate::kernel::console::write_byte(console, screen, font, last);
            },
            None => crate::kernel::console::write_byte(console, screen, font, last),
        }
        (first, last)
    }

    /// Mirror a text to the screen, if there is a console, and say everything
    /// to send for it, in order.
    pub fn write_str(
        &self,
        console: &mut Option<Console>,
        screen: &mut [u32],
        font: &Font,
        text: &[u8],
    ) -> (sent: Vec<u8>)
        requires
            *old(console) matches Some(console) ==> console.wf(old(screen)@.len()),
        ensures
            sent@ == wired_text(text@),
            wrote(
                *old(console),
                *final(console),
                old(screen)@,
                final(screen)@,
                *font,
                wired_text(text@),
            ),
    {
        let mut sent: Vec<u8> = Vec::new();
        let mut i: usize = 0;
        assert(text@.take(0) =~= Seq::<u8>::empty());
        while i < text.len()
            invariant
                i <= text@.len(),
                sent@ == wired_text(text@.take(i as int)),
                *old(console) matches Some(console) ==> console.wf(old(screen)@.len()),
                wrote(
                    *old(console),
                    *console,
                    old(screen)@,
                    screen@,
                    *font,
                    wired_text(text@.take(i as int)),
                ),
            decreases text@.len() - i,
        {
            let ghost before = sent@;
            let (first, byte) = self.mirror_byte(console, screen, font, text[i]);
            if let Some(first) = first {
                sent.push(first);
            }
            sent.push(byte);
            proof {
                let more = text@.take(i + 1);
                assert(more.drop_last() =~= text@.take(i as int));
                assert(more.last() == text@[i as int]);
                assert(sent@ =~= before + wired(text@[i as int]));
                if *old(console) is Some {
                    texts_are_drawn_in_order(
                        (*old(console))->0.state(),
                        old(screen)@,
                        *font,
                        wired_text(more.drop_last()),
                        wired(more.last()),
                    );
                }
            }
            i += 1;
        }
        assert(text@.take(i as int) =~= text@);
        sent
    }
}

/// Sending two texts one after the other is sending them together.
pub proof fn texts_are_sent_in_order(one: Seq<u8>, two: Seq<u8>)
    ensures
        wired_text(one + two) == wired_text(one) + wired_text(two),
    decreases two.len(),
{
    if two.len() == 0 {
        assert(one + two =~= one);
        assert(wired_text(one) + wired_text(two) =~= wired_text(one));
    } else {
        texts_are_sent_in_order(one, two.drop_last());
        assert((one + two).drop_last() =~= one + two.drop_last());
        assert(wired_text(one) + (wired_text(two.drop_last()) + wired(two.last())) =~= wired_text(
            one,
        ) + wired_text(two.drop_last()) + wired(two.last()));
    }
}

/// The carriage returns that go over the wire leave no trace on the screen:
/// it shows the text itself.
pub proof fn the_screen_shows_the_text(
    state: ConsoleState,
    screen: Seq<u32>,
    font: Font,
    text: Seq<u8>,
)
    ensures
        state.after_text(wired_text(text)) == state.after_text(text),
        state.screen_after_text(screen, font, wired_text(text)) == state.screen_after_text(
            screen,
            font,
            text,
        ),
    decreases text.len(),
{
    if text.len() > 0 {
        let earlier = text.drop_last();
        let last = text.last();
        the_screen_shows_the_text(state, screen, font, earlier);
        texts_are_drawn_in_order(state, screen, font, wired_text(earlier), wired(last));
        let there = state.after_text(earlier);
        let shown = state.screen_after_text(screen, font, earlier);
        lemma_wired_byte(there, shown, font, last);
    }
}

/// A line feed is sent as a carriage return and a line feed, and every other
/// byte as itself, with nothing in front of it or behind it.
pub proof fn only_a_line_feed_gets_company(byte: u8)
    ensures
        byte == 0x0a ==> wired(byte).len() == 2 && wired(byte)[0] == 0x0d && wired(byte)[1] == 0x0a,
        byte != 0x0a ==> wired(byte).len() == 1 && wired(byte)[0] == byte,
        wired_text(seq![byte]) == wired(byte),
        wired_text(Seq::<u8>::empty()) == Seq::<u8>::empty(),
{
    reveal_with_fuel(wired_text, 2);
    assert(seq![byte].drop_last() =~= Seq::<u8>::empty());
    assert(wired_text(seq![byte]) =~= wired(byte));
}

/// A text without line feeds goes over the wire unchanged.
pub proof fn a_text_without_line_feeds_is_sent_unchanged(text: Seq<u8>)
    requires
        forall|i: int| 0 <= i < text.len() ==> #[trigger] text[i] != 0x0a,
    ensures
        wired_text(text) == text,
    decreases text.len(),
{
    if text.len() > 0 {
        let earlier = text.drop_last();
        assert forall|i: int| 0 <= i < earlier.len() implies #[trigger] earlier[i] != 0x0a by {
            assert(text[i] != 0x0a);
        }
        a_text_without_line_feeds_is_sent_unchanged(earlier);
        assert(text.last() != 0x0a);
        assert(wired_text(text) =~= text);
    }
}

/// How many line feeds a text holds.
pub open spec fn line_feeds(text: Seq<u8>) -> nat
    decreases text.len(),
{
    if text.len() == 0 {
        0
    } else if text[0] == 0x0a {
        1 + line_feeds(text.drop_first())
    } else {
        line_feeds(text.drop_first())
    }
}

/// As many bytes are sent as the text has, and one more for each of its line
/// feeds.
pub proof fn one_more_byte_is_sent_for_each_line_feed(text: Seq<u8>)
    ensures
        wired_text(text).len() == text.len() + line_feeds(text),
    decreases text.len(),
{
    if text.len() > 0 {
        let first = seq![text[0]];
        let rest = text.drop_first();
        one_more_byte_is_sent_for_each_line_feed(rest);
        assert(first + rest =~= text);
        texts_are_sent_in_order(first, rest);
        only_a_line_feed_gets_company(text[0]);
    }
}

/// Byte `i` of a text comes behind everything that is sent for the bytes in
/// front of it, and what is sent there ends in that very byte.
pub proof fn every_byte_is_sent_in_its_place(text: Seq<u8>, i: int)
    requires
        0 <= i < text.len(),
    ensures
        ({
            let at = i + line_feeds(text.take(i + 1));
            &&& 0 <= at < wired_text(text).len()
            &&& wired_text(text)[at] == text[i]
            &&& text[i] == 0x0a ==> at > 0 && wired_text(text)[at - 1] == 0x0d
        }),
{
    let head = text.take(i + 1);
    let tail = text.skip(i + 1);
    assert(head + tail =~= text);
    texts_are_sent_in_order(head, tail);
    one_more_byte_is_sent_for_each_line_feed(head);
    assert(head.last() == text[i]);
    only_a_line_feed_gets_company(text[i]);
    let sent = wired_text(head.drop_last()) + wired(head.last());
    assert(wired_text(head) == sent);
    assert(sent[sent.len() - 1] == text[i]);
    if text[i] == 0x0a {
        assert(sent[sent.len() - 2] == 0x0d);
    }
}

/// The line's registers are those of the first serial port of a PC, and it
/// is set up for 38400 baud: while the divisor is open, 3 goes in low byte
/// first, out of 115200; then 8 bits, no parity and one stop bit close it.
pub proof fn the_line_is_set_up_on_the_first_port(i: int)
    ensures
        DATA_PORT == 0x3f8,
        LINE_STATUS_PORT == DATA_PORT + 5,
        setup_writes().len() == 7,
        0 <= i < 7 ==> 0x3f8 <= setup_writes()[i].port < 0x3f8 + 8,
        setup_writes()[0] == (PortWrite { port: 0x3f9, value: 0 }),
        setup_writes()[1] == (PortWrite { port: 0x3fb, value: 0x80 }),
        setup_writes()[2].port == 0x3f8 && setup_writes()[3].port == 0x3f9,
        (setup_writes()[2].value + 0x100 * setup_writes()[3].value) * 38400 == 115200,
        setup_writes()[4] == (PortWrite { port: 0x3fb, value: 0x03 }),
        setup_writes()[5] == (PortWrite { port: 0x3fa, value: 0xc7 }),
        setup_writes()[6] == (PortWrite { port: 0x3fc, value: 0x0b }),
{
}

} // verus!
