//! The pseudo-terminal codec: it passes the bytes that a terminal program
//! writes on through as data, and with `interrupt_as_break` cuts out each
//! control-C as a gdb interrupt event.
use vstd::prelude::*;
use tokio_util::bytes::{Bytes, BytesMut};
use crate::buffer::{
    buf_advance, buf_byte, buf_contents, buf_is_empty, buf_len, buf_split, buf_split_to,
    bytes_contents, bytes_from_buf,
};
use crate::scan::{
    first_where, is_first_where, lemma_first_where, lemma_first_where_at, lemma_first_where_none,
    none_where, INTERRUPT,
};

verus! {

/// An event read from a pseudo-terminal.
#[derive(Debug)]
pub enum PtyByteEvent {
    Data(Bytes),
    GdbInterrupt,
}

/// A pseudo-terminal event with its data as a sequence of bytes.
pub enum SpecPtyEvent {
    Data(Seq<u8>),
    GdbInterrupt,
}

impl View for PtyByteEvent {
    type V = SpecPtyEvent;

    open spec fn view(&self) -> SpecPtyEvent {
        match self {
            PtyByteEvent::Data(bytes) => SpecPtyEvent::Data(bytes_contents(*bytes)),
            PtyByteEvent::GdbInterrupt => SpecPtyEvent::GdbInterrupt,
        }
    }
}

/// An optional event, viewed.
pub open spec fn pty_event_view(event: Option<PtyByteEvent>) -> Option<SpecPtyEvent> {
    match event {
        Some(e) => Some(e@),
        None => None,
    }
}

/// The byte that reads as a gdb interrupt.
pub open spec fn interrupt_byte() -> spec_fn(u8) -> bool {
    |b: u8| b == INTERRUPT
}

/// One read of the decoder from the bytes `s`: the event, if any, and how
/// many bytes of the front of `s` it takes. Without `interrupt_as_break`
/// everything is data; with it, data runs up to the first control-C, and a
/// control-C in front is a gdb interrupt.
pub open spec fn pty_decode_step(interrupt_as_break: bool, s: Seq<u8>) -> (Option<SpecPtyEvent>, int) {
    if s.len() == 0 {
        (None, 0)
    } else {
        let offset = if interrupt_as_break {
            first_where(s, interrupt_byte())
        } else {
            None
        };
        match offset {
            None => (Some(SpecPtyEvent::Data(s)), s.len() as int),
            Some(k) => if k == 0 {
                (Some(SpecPtyEvent::GdbInterrupt), 1)
            } else {
                (Some(SpecPtyEvent::Data(s.take(k))), k)
            },
        }
    }
}

/// The bytes that an event was read from: its data, or the control-C.
pub open spec fn pty_payload(event: SpecPtyEvent) -> Seq<u8> {
    match event {
        SpecPtyEvent::Data(d) => d,
        SpecPtyEvent::GdbInterrupt => seq![INTERRUPT],
    }
}

/// Reading again and again while reads make progress: the events in order.
pub open spec fn pty_decode_all(interrupt_as_break: bool, s: Seq<u8>) -> Seq<SpecPtyEvent>
    decreases s.len(),
{
    let (event, n) = pty_decode_step(interrupt_as_break, s);
    if 0 < n <= s.len() && event is Some {
        seq![event.unwrap()] + pty_decode_all(interrupt_as_break, s.skip(n))
    } else {
        Seq::empty()
    }
}

/// The bytes that a sequence of events was read from, concatenated.
pub open spec fn pty_bytes_of(events: Seq<SpecPtyEvent>) -> Seq<u8>
    decreases events.len(),
{
    if events.len() == 0 {
        Seq::empty()
    } else {
        pty_payload(events[0]) + pty_bytes_of(events.drop_first())
    }
}

/// The pseudo-terminal codec; with `interrupt_as_break`, a control-C reads
/// as a gdb interrupt instead of data.
#[derive(Debug)]
pub struct PtyByteCodec {
    interrupt_as_break: bool,
}

impl PtyByteCodec {
    /// Whether a control-C reads as a gdb interrupt.
    pub closed spec fn interrupts_as_break(&self) -> bool {
        self.interrupt_as_break
    }

    #[must_use]
    pub fn new(interrupt_as_break: bool) -> (codec: Self)
        ensures
            codec.interrupts_as_break() == interrupt_as_break,
    {
        PtyByteCodec { interrupt_as_break }
    }

    /// The position of the first control-C in `buf`, if any.
    fn find_interrupt(buf: &BytesMut) -> (pos: Option<usize>)
        ensures
            pos matches Some(i) ==> is_first_where(buf_contents(*buf), interrupt_byte(), i as int),
            pos is None ==> none_where(buf_contents(*buf), interrupt_byte()),
    {
        let ghost p = interrupt_byte();
        let len = buf_len(buf);
        let mut i: usize = 0;
        while i < len
            invariant
                i <= len,
                len == buf_contents(*buf).len(),
                p == interrupt_byte(),
                forall|j: int| 0 <= j < i ==> !p(#[trigger] buf_contents(*buf)[j]),
            decreases len - i,
        {
            if buf_byte(buf, i) == INTERRUPT {
                return Some(i);
            }
            i += 1;
        }
        None
    }

    /// Reads the next event from the front of `buf` and takes its bytes;
    /// `None` only where `buf` is empty. Always succeeds.
    pub fn decode(&mut self, buf: &mut BytesMut) -> (res: Result<Option<PtyByteEvent>, std::io::Error>)
        ensures
            *final(self) == *old(self),
            res matches Ok(event) && pty_event_view(event) == pty_decode_step(
                old(self).interrupts_as_break(),
                buf_contents(*old(buf)),
            ).0,
            buf_contents(*final(buf)) == buf_contents(*old(buf)).skip(
                pty_decode_step(old(self).interrupts_as_break(), buf_contents(*old(buf))).1,
            ),
    {
        let ghost s = buf_contents(*buf);
        if buf_is_empty(buf) {
            assert(s.skip(0) =~= s);
            return Ok(None);
        }
        let interrupt_offset = if self.interrupt_as_break {
            Self::find_interrupt(buf)
        } else {
            None
        };
        proof {
            if self.interrupt_as_break {
                match interrupt_offset {
                    Some(i) => lemma_first_where_at(s, interrupt_byte(), i as int),
                    None => lemma_first_where_none(s, interrupt_byte()),
                }
            }
        }
        let ret = match interrupt_offset {
            None => {
                let taken = buf_split(buf);
                assert(s.skip(s.len() as int) =~= Seq::<u8>::empty());
                PtyByteEvent::Data(bytes_from_buf(taken))
            },
            Some(pos) => {
                if pos == 0 {
                    buf_advance(buf, 1);
                    PtyByteEvent::GdbInterrupt
                } else {
                    let taken = buf_split_to(buf, pos);
                    PtyByteEvent::Data(bytes_from_buf(taken))
                }
            },
        };
        Ok(Some(ret))
    }
}

// ---------------------------------------------------------------------------
// Laws.

/// A read from bytes that are there takes at least one and at most all of
/// them, and the event stands for exactly the bytes it takes. Without
/// `interrupt_as_break` it takes them all as data.
pub proof fn lemma_pty_step_lossless(interrupt_as_break: bool, s: Seq<u8>)
    requires
        s.len() > 0,
    ensures
        pty_decode_step(interrupt_as_break, s).0 is Some,
        1 <= pty_decode_step(interrupt_as_break, s).1 <= s.len(),
        pty_payload(pty_decode_step(interrupt_as_break, s).0.unwrap()) == s.take(
            pty_decode_step(interrupt_as_break, s).1,
        ),
        !interrupt_as_break ==> pty_decode_step(interrupt_as_break, s) == (
            Some(SpecPtyEvent::Data(s)),
            s.len() as int,
        ),
{
    if interrupt_as_break {
        lemma_first_where(s, interrupt_byte());
        if let Some(k) = first_where(s, interrupt_byte()) {
            if k == 0 {
                assert(s.take(1) =~= seq![INTERRUPT]);
            }
        }
    }
    assert(s.take(s.len() as int) =~= s);
}

/// On a gdb pseudo-terminal, data without control-C in front of a control-C
/// reads as one data event holding exactly that data, whatever follows; data
/// without control-C alone reads as one data event holding all of it; and a
/// control-C in front reads as a gdb interrupt taking exactly that byte.
pub proof fn lemma_pty_read_gdb(d: Seq<u8>, rest: Seq<u8>)
    requires
        forall|j: int| 0 <= j < d.len() ==> #[trigger] d[j] != INTERRUPT,
    ensures
        d.len() > 0 ==> pty_decode_step(true, d + (seq![INTERRUPT] + rest)) == (
            Some(SpecPtyEvent::Data(d)),
            d.len() as int,
        ),
        d.len() > 0 ==> pty_decode_step(true, d) == (Some(SpecPtyEvent::Data(d)), d.len() as int),
        pty_decode_step(true, seq![INTERRUPT] + rest) == (Some(SpecPtyEvent::GdbInterrupt), 1int),
{
    let p = interrupt_byte();
    let t = seq![INTERRUPT] + rest;
    let s = d + t;
    assert(s[d.len() as int] == INTERRUPT);
    assert forall|j: int| 0 <= j < d.len() implies !p(#[trigger] s[j]) by {
        assert(s[j] == d[j]);
    }
    assert(is_first_where(s, p, d.len() as int));
    lemma_first_where_at(s, p, d.len() as int);
    assert(s.take(d.len() as int) =~= d);
    assert forall|j: int| 0 <= j < d.len() implies !p(#[trigger] d[j]) by {}
    lemma_first_where_none(d, p);
    assert(t[0] == INTERRUPT);
    assert(is_first_where(t, p, 0));
    lemma_first_where_at(t, p, 0);
}

proof fn lemma_pty_bytes_of_cons(e: SpecPtyEvent, rest: Seq<SpecPtyEvent>)
    ensures
        pty_bytes_of(seq![e] + rest) == pty_payload(e) + pty_bytes_of(rest),
{
    assert((seq![e] + rest).drop_first() =~= rest);
    assert((seq![e] + rest)[0] == e);
}

/// Reading a pseudo-terminal's bytes to the end loses, adds and reorders
/// nothing: the events stand for exactly the bytes read, in order.
pub proof fn lemma_pty_decode_lossless(interrupt_as_break: bool, s: Seq<u8>)
    ensures
        pty_bytes_of(pty_decode_all(interrupt_as_break, s)) == s,
    decreases s.len(),
{
    if s.len() > 0 {
        lemma_pty_step_lossless(interrupt_as_break, s);
        let (event, n) = pty_decode_step(interrupt_as_break, s);
        lemma_pty_decode_lossless(interrupt_as_break, s.skip(n));
        lemma_pty_bytes_of_cons(event.unwrap(), pty_decode_all(interrupt_as_break, s.skip(n)));
        assert(s.take(n) + s.skip(n) =~= s);
    } else {
        assert(s =~= Seq::<u8>::empty());
    }
}

} // verus!
