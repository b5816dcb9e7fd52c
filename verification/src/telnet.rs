//! The telnet codec: it splits the bytes that a telnet client sends into
//! data, break, option negotiation and (optionally) gdb interrupt events, and
//! writes events back as telnet bytes, doubling every data byte `IAC`.
//!
//! Only the options binary, echo and suppress-go-ahead are known by name, and
//! of the commands only `BREAK` and the four negotiation verbs are acted on.
use vstd::prelude::*;
use tokio_util::bytes::{Bytes, BytesMut};
use crate::buffer::{
    buf_advance, buf_byte, buf_contents, buf_extend, buf_is_empty, buf_len, buf_put_u8,
    buf_reserve, buf_split, buf_split_to, bytes_byte, bytes_contents, bytes_from_buf,
    bytes_from_vec, bytes_len, bytes_new,
};
use crate::scan::{
    first_where, is_first_where, lemma_first_where, lemma_first_where_at, lemma_first_where_none,
    none_where, INTERRUPT,
};

pub mod commands;

use self::commands::{
    BREAK, DO, DONT, IAC, OPTION_BINARY, OPTION_ECHO, OPTION_SGA, WILL, WONT,
};

verus! {

/// A telnet option, as named in a negotiation command.
#[derive(Debug, Clone, Copy, PartialEq, Eq, Structural)]
pub enum TelnetByteOption {
    Echo,
    SuppressGoAhead,
    Binary,
    Unsupported(u8),
}

/// The option that an option code names.
pub open spec fn option_from_byte(byte: u8) -> TelnetByteOption {
    if byte == OPTION_ECHO {
        TelnetByteOption::Echo
    } else if byte == OPTION_SGA {
        TelnetByteOption::SuppressGoAhead
    } else if byte == OPTION_BINARY {
        TelnetByteOption::Binary
    } else {
        TelnetByteOption::Unsupported(byte)
    }
}

/// The code that stands for an option on the wire.
pub open spec fn option_to_byte(option: TelnetByteOption) -> u8 {
    match option {
        TelnetByteOption::Echo => OPTION_ECHO,
        TelnetByteOption::SuppressGoAhead => OPTION_SGA,
        TelnetByteOption::Binary => OPTION_BINARY,
        TelnetByteOption::Unsupported(byte) => byte,
    }
}

impl From<u8> for TelnetByteOption {
    fn from(byte: u8) -> (option: Self) {
        if byte == OPTION_ECHO {
            TelnetByteOption::Echo
        } else if byte == OPTION_SGA {
            TelnetByteOption::SuppressGoAhead
        } else if byte == OPTION_BINARY {
            TelnetByteOption::Binary
        } else {
            TelnetByteOption::Unsupported(byte)
        }
    }
}

impl vstd::std_specs::convert::FromSpecImpl<u8> for TelnetByteOption {
    open spec fn obeys_from_spec() -> bool {
        true
    }

    open spec fn from_spec(v: u8) -> Self {
        option_from_byte(v)
    }
}

impl From<TelnetByteOption> for u8 {
    fn from(option: TelnetByteOption) -> (byte: Self) {
        match option {
            TelnetByteOption::Echo => OPTION_ECHO,
            TelnetByteOption::SuppressGoAhead => OPTION_SGA,
            TelnetByteOption::Binary => OPTION_BINARY,
            TelnetByteOption::Unsupported(byte) => byte,
        }
    }
}

impl vstd::std_specs::convert::FromSpecImpl<TelnetByteOption> for u8 {
    open spec fn obeys_from_spec() -> bool {
        true
    }

    open spec fn from_spec(v: TelnetByteOption) -> Self {
        option_to_byte(v)
    }
}

/// An event of a telnet connection, in either direction.
#[derive(Debug)]
pub enum TelnetByteEvent {
    Data(Bytes),
    Break,
    Will(TelnetByteOption),
    Wont(TelnetByteOption),
    Do(TelnetByteOption),
    Dont(TelnetByteOption),
    GdbInterrupt,
}

/// A telnet event with its data as a sequence of bytes.
pub enum SpecTelnetEvent {
    Data(Seq<u8>),
    Break,
    Will(TelnetByteOption),
    Wont(TelnetByteOption),
    Do(TelnetByteOption),
    Dont(TelnetByteOption),
    GdbInterrupt,
}

impl View for TelnetByteEvent {
    type V = SpecTelnetEvent;

    open spec fn view(&self) -> SpecTelnetEvent {
        match self {
            TelnetByteEvent::Data(bytes) => SpecTelnetEvent::Data(bytes_contents(*bytes)),
            TelnetByteEvent::Break => SpecTelnetEvent::Break,
            TelnetByteEvent::Will(o) => SpecTelnetEvent::Will(*o),
            TelnetByteEvent::Wont(o) => SpecTelnetEvent::Wont(*o),
            TelnetByteEvent::Do(o) => SpecTelnetEvent::Do(*o),
            TelnetByteEvent::Dont(o) => SpecTelnetEvent::Dont(*o),
            TelnetByteEvent::GdbInterrupt => SpecTelnetEvent::GdbInterrupt,
        }
    }
}

/// An optional event, viewed.
pub open spec fn event_view(event: Option<TelnetByteEvent>) -> Option<SpecTelnetEvent> {
    match event {
        Some(e) => Some(e@),
        None => None,
    }
}

// ---------------------------------------------------------------------------
// What the codec writes.

/// The bytes that stand for one data byte: `IAC` is doubled.
pub open spec fn escape_byte(b: u8) -> Seq<u8> {
    if b == IAC {
        seq![IAC, IAC]
    } else {
        seq![b]
    }
}

/// Data bytes as telnet sends them: every `IAC` doubled, all else as is.
pub open spec fn escape(data: Seq<u8>) -> Seq<u8>
    decreases data.len(),
{
    if data.len() == 0 {
        Seq::empty()
    } else {
        escape(data.drop_last()) + escape_byte(data.last())
    }
}

/// How many bytes of `data` are `IAC`.
pub open spec fn iac_count(data: Seq<u8>) -> nat
    decreases data.len(),
{
    if data.len() == 0 {
        0
    } else {
        iac_count(data.drop_last()) + if data.last() == IAC {
            1nat
        } else {
            0nat
        }
    }
}

/// The bytes that the encoder writes for an event. Break and gdb interrupt
/// events are never sent to a client, so they write nothing.
pub open spec fn encoding(event: SpecTelnetEvent) -> Seq<u8> {
    match event {
        SpecTelnetEvent::Data(data) => escape(data),
        SpecTelnetEvent::Will(o) => seq![IAC, WILL, option_to_byte(o)],
        SpecTelnetEvent::Wont(o) => seq![IAC, WONT, option_to_byte(o)],
        SpecTelnetEvent::Do(o) => seq![IAC, DO, option_to_byte(o)],
        SpecTelnetEvent::Dont(o) => seq![IAC, DONT, option_to_byte(o)],
        SpecTelnetEvent::Break => Seq::empty(),
        SpecTelnetEvent::GdbInterrupt => Seq::empty(),
    }
}

// ---------------------------------------------------------------------------
// What the codec reads.

/// The bytes at which a data run ends: `IAC`, and control-C where it is
/// taken as a gdb interrupt.
pub open spec fn control_byte(interrupt_as_break: bool) -> spec_fn(u8) -> bool {
    |b: u8| b == IAC || (interrupt_as_break && b == INTERRUPT)
}

/// The event that a three-byte command `IAC command option` stands for; an
/// unknown command reads as empty data.
pub open spec fn command_event(command: u8, option: u8) -> SpecTelnetEvent {
    if command == WILL {
        SpecTelnetEvent::Will(option_from_byte(option))
    } else if command == WONT {
        SpecTelnetEvent::Wont(option_from_byte(option))
    } else if command == DO {
        SpecTelnetEvent::Do(option_from_byte(option))
    } else if command == DONT {
        SpecTelnetEvent::Dont(option_from_byte(option))
    } else {
        SpecTelnetEvent::Data(Seq::empty())
    }
}

/// Reading at a control byte (`s` non-empty): the event, if any, and how
/// many bytes it takes. A command that has not fully arrived takes nothing.
pub open spec fn special_step(interrupt_as_break: bool, s: Seq<u8>) -> (Option<SpecTelnetEvent>, int) {
    if interrupt_as_break && s[0] == INTERRUPT {
        (Some(SpecTelnetEvent::GdbInterrupt), 1)
    } else if s[0] != IAC {
        (None, 1)
    } else if s.len() < 2 {
        (None, 0)
    } else if s[1] == IAC {
        (Some(SpecTelnetEvent::Data(seq![IAC])), 2)
    } else if s[1] == BREAK {
        (Some(SpecTelnetEvent::Break), 2)
    } else if s.len() < 3 {
        (None, 0)
    } else {
        (Some(command_event(s[1], s[2])), 3)
    }
}

/// One read of the decoder from the bytes `s`: the event, if any, and how
/// many bytes of the front of `s` it takes. Data runs up to the first
/// control byte; a control byte in front starts a special sequence.
pub open spec fn decode_step(interrupt_as_break: bool, s: Seq<u8>) -> (Option<SpecTelnetEvent>, int) {
    if s.len() == 0 {
        (None, 0)
    } else {
        match first_where(s, control_byte(interrupt_as_break)) {
            None => (Some(SpecTelnetEvent::Data(s)), s.len() as int),
            Some(k) => if k == 0 {
                special_step(interrupt_as_break, s)
            } else {
                (Some(SpecTelnetEvent::Data(s.take(k))), k)
            },
        }
    }
}

/// `s` starts with a command that has not fully arrived yet.
pub open spec fn incomplete_command(s: Seq<u8>) -> bool {
    &&& s.len() > 0
    &&& s[0] == IAC
    &&& (s.len() == 1 || (s.len() == 2 && s[1] != IAC && s[1] != BREAK))
}

/// Reading again and again while reads make progress: the events in order,
/// and the bytes left over.
pub open spec fn decode_all(interrupt_as_break: bool, s: Seq<u8>) -> (Seq<SpecTelnetEvent>, Seq<u8>)
    decreases s.len(),
{
    let (event, n) = decode_step(interrupt_as_break, s);
    if 0 < n <= s.len() {
        let rest = decode_all(interrupt_as_break, s.skip(n));
        match event {
            Some(e) => (seq![e] + rest.0, rest.1),
            None => rest,
        }
    } else {
        (Seq::empty(), s)
    }
}

/// The data that an event carries; events other than data carry none.
pub open spec fn payload(event: SpecTelnetEvent) -> Seq<u8> {
    match event {
        SpecTelnetEvent::Data(d) => d,
        _ => Seq::empty(),
    }
}

/// The data that a sequence of events carries, concatenated.
pub open spec fn data_of(events: Seq<SpecTelnetEvent>) -> Seq<u8>
    decreases events.len(),
{
    if events.len() == 0 {
        Seq::empty()
    } else {
        payload(events[0]) + data_of(events.drop_first())
    }
}

/// What a negotiation command reads back as: its option code, read again.
pub open spec fn normalized(event: SpecTelnetEvent) -> SpecTelnetEvent {
    match event {
        SpecTelnetEvent::Will(o) => SpecTelnetEvent::Will(option_from_byte(option_to_byte(o))),
        SpecTelnetEvent::Wont(o) => SpecTelnetEvent::Wont(option_from_byte(option_to_byte(o))),
        SpecTelnetEvent::Do(o) => SpecTelnetEvent::Do(option_from_byte(option_to_byte(o))),
        SpecTelnetEvent::Dont(o) => SpecTelnetEvent::Dont(option_from_byte(option_to_byte(o))),
        _ => event,
    }
}

/// The event is one of the four negotiation commands.
pub open spec fn is_negotiation(event: SpecTelnetEvent) -> bool {
    ||| event is Will
    ||| event is Wont
    ||| event is Do
    ||| event is Dont
}

/// The telnet codec; with `interrupt_as_break`, a control-C from the client
/// reads as a gdb interrupt instead of data.
#[derive(Debug)]
pub struct TelnetByteCodec {
    interrupt_as_break: bool,
}

impl TelnetByteCodec {
    /// Whether a control-C reads as a gdb interrupt.
    pub closed spec fn interrupts_as_break(&self) -> bool {
        self.interrupt_as_break
    }

    #[must_use]
    pub fn new(interrupt_as_break: bool) -> (codec: Self)
        ensures
            codec.interrupts_as_break() == interrupt_as_break,
    {
        TelnetByteCodec { interrupt_as_break }
    }

    /// Writes `event` to the end of `buffer`. Always succeeds.
    pub fn encode(&mut self, event: TelnetByteEvent, buffer: &mut BytesMut) -> (res: Result<(), std::io::Error>)
        requires
            buf_contents(*old(buffer)).len() + encoding(event@).len() <= isize::MAX,
        ensures
            *final(self) == *old(self),
            res is Ok,
            buf_contents(*final(buffer)) == buf_contents(*old(buffer)) + encoding(event@),
    {
        match event {
            TelnetByteEvent::Data(msg) => encode_data(msg, buffer),
            TelnetByteEvent::Will(option) => {
                buf_extend(buffer, [IAC, WILL, u8::from(option)]);
                assert([IAC, WILL, option_to_byte(option)]@ =~= encoding(event@));
            },
            TelnetByteEvent::Wont(option) => {
                buf_extend(buffer, [IAC, WONT, u8::from(option)]);
                assert([IAC, WONT, option_to_byte(option)]@ =~= encoding(event@));
            },
            TelnetByteEvent::Do(option) => {
                buf_extend(buffer, [IAC, DO, u8::from(option)]);
                assert([IAC, DO, option_to_byte(option)]@ =~= encoding(event@));
            },
            TelnetByteEvent::Dont(option) => {
                buf_extend(buffer, [IAC, DONT, u8::from(option)]);
                assert([IAC, DONT, option_to_byte(option)]@ =~= encoding(event@));
            },
            _ => {
                assert(buf_contents(*buffer) =~= buf_contents(*buffer) + encoding(event@));
            },
        }
        Ok(())
    }

    /// Writes `event` to the end of `buffer` where the buffer can hold it and
    /// returns `true`; where it cannot (its length would pass `isize::MAX`),
    /// writes nothing and returns `false`.
    pub fn encode_checked(&mut self, event: TelnetByteEvent, buffer: &mut BytesMut) -> (written: bool)
        ensures
            *final(self) == *old(self),
            written == (buf_contents(*old(buffer)).len() + encoding(event@).len() <= isize::MAX),
            written ==> buf_contents(*final(buffer)) == buf_contents(*old(buffer)) + encoding(
                event@,
            ),
            !written ==> buf_contents(*final(buffer)) == buf_contents(*old(buffer)),
    {
        let needed = encoded_len(&event);
        let len = buf_len(buffer);
        match needed {
            Some(n) => {
                if n <= isize::MAX as usize && len <= isize::MAX as usize - n {
                    let _ = self.encode(event, buffer);
                    true
                } else {
                    false
                }
            },
            None => false,
        }
    }

    /// Reads the event at the front of `buf` (which starts with a control
    /// byte) and takes its bytes; `None` where no event comes of them yet.
    fn decode_special_char(&mut self, buf: &mut BytesMut) -> (event: Option<TelnetByteEvent>)
        requires
            buf_contents(*old(buf)).len() > 0,
        ensures
            *final(self) == *old(self),
            event_view(event) == special_step(old(self).interrupt_as_break, buf_contents(*old(buf))).0,
            buf_contents(*final(buf)) == buf_contents(*old(buf)).skip(
                special_step(old(self).interrupt_as_break, buf_contents(*old(buf))).1,
            ),
    {
        let ghost s = buf_contents(*buf);
        let first = buf_byte(buf, 0);
        if self.interrupt_as_break && first == INTERRUPT {
            buf_advance(buf, 1);
            return Some(TelnetByteEvent::GdbInterrupt);
        }
        if first != IAC {
            buf_advance(buf, 1);
            return None;
        }
        if buf_len(buf) < 2 {
            assert(s.skip(0) =~= s);
            return None;
        }
        let second = buf_byte(buf, 1);
        if second == IAC {
            buf_advance(buf, 2);
            let v = vec![IAC];
            assert(v@ =~= seq![IAC]);
            return Some(TelnetByteEvent::Data(bytes_from_vec(v)));
        }
        if second == BREAK {
            buf_advance(buf, 2);
            return Some(TelnetByteEvent::Break);
        }
        if buf_len(buf) < 3 {
            assert(s.skip(0) =~= s);
            return None;
        }
        let command = buf_split_to(buf, 3);
        let verb = buf_byte(&command, 1);
        let code = buf_byte(&command, 2);
        let event = if verb == WILL {
            TelnetByteEvent::Will(TelnetByteOption::from(code))
        } else if verb == WONT {
            TelnetByteEvent::Wont(TelnetByteOption::from(code))
        } else if verb == DO {
            TelnetByteEvent::Do(TelnetByteOption::from(code))
        } else if verb == DONT {
            TelnetByteEvent::Dont(TelnetByteOption::from(code))
        } else {
            TelnetByteEvent::Data(bytes_new())
        };
        Some(event)
    }

    /// The position of the first control byte in `buf`, if any.
    fn find_control(&self, buf: &BytesMut) -> (pos: Option<usize>)
        ensures
            pos matches Some(i) ==> is_first_where(
                buf_contents(*buf),
                control_byte(self.interrupt_as_break),
                i as int,
            ),
            pos is None ==> none_where(buf_contents(*buf), control_byte(self.interrupt_as_break)),
    {
        let ghost p = control_byte(self.interrupt_as_break);
        let len = buf_len(buf);
        let mut i: usize = 0;
        while i < len
            invariant
                i <= len,
                len == buf_contents(*buf).len(),
                p == control_byte(self.interrupt_as_break),
                forall|j: int| 0 <= j < i ==> !p(#[trigger] buf_contents(*buf)[j]),
            decreases len - i,
        {
            let b = buf_byte(buf, i);
            if b == IAC || (self.interrupt_as_break && b == INTERRUPT) {
                return Some(i);
            }
            i += 1;
        }
        None
    }

    /// Reads the next event from the front of `buf` and takes its bytes:
    /// a run of data up to the first control byte, or what a control byte in
    /// front starts. `None` where `buf` is empty or holds the start of a
    /// command that has not fully arrived; then nothing is taken. Always
    /// succeeds.
    pub fn decode(&mut self, buf: &mut BytesMut) -> (res: Result<Option<TelnetByteEvent>, std::io::Error>)
        ensures
            *final(self) == *old(self),
            res matches Ok(event) && event_view(event) == decode_step(
                old(self).interrupts_as_break(),
                buf_contents(*old(buf)),
            ).0,
            buf_contents(*final(buf)) == buf_contents(*old(buf)).skip(
                decode_step(old(self).interrupts_as_break(), buf_contents(*old(buf))).1,
            ),
    {
        let ghost s = buf_contents(*buf);
        if buf_is_empty(buf) {
            assert(s.skip(0) =~= s);
            return Ok(None);
        }
        let control_offset = self.find_control(buf);
        proof {
            let p = control_byte(self.interrupt_as_break);
            match control_offset {
                Some(i) => lemma_first_where_at(s, p, i as int),
                None => lemma_first_where_none(s, p),
            }
        }
        let ret = match control_offset {
            None => {
                let taken = buf_split(buf);
                assert(s.skip(s.len() as int) =~= Seq::<u8>::empty());
                Some(TelnetByteEvent::Data(bytes_from_buf(taken)))
            },
            Some(pos) => {
                if pos == 0 {
                    self.decode_special_char(buf)
                } else {
                    let taken = buf_split_to(buf, pos);
                    Some(TelnetByteEvent::Data(bytes_from_buf(taken)))
                }
            },
        };
        Ok(ret)
    }
}

/// How many bytes of `bytes` are `IAC`.
fn count_iac(bytes: &Bytes) -> (count: usize)
    ensures
        count == iac_count(bytes_contents(*bytes)),
{
    let ghost data = bytes_contents(*bytes);
    let n = bytes_len(bytes);
    let mut count: usize = 0;
    let mut i: usize = 0;
    while i < n
        invariant
            i <= n,
            n == data.len(),
            data == bytes_contents(*bytes),
            count == iac_count(data.take(i as int)),
            count <= i,
        decreases n - i,
    {
        let b = bytes_byte(bytes, i);
        assert(data.take(i + 1).drop_last() =~= data.take(i as int));
        if b == IAC {
            count += 1;
        }
        i += 1;
    }
    assert(data.take(n as int) =~= data);
    count
}

/// The number of bytes that the encoder writes for `event`; `None` where
/// that number does not fit in a `usize`.
pub fn encoded_len(event: &TelnetByteEvent) -> (len: Option<usize>)
    ensures
        match len {
            Some(n) => n == encoding(event@).len(),
            None => encoding(event@).len() > usize::MAX,
        },
{
    match event {
        TelnetByteEvent::Data(bytes) => {
            let count = count_iac(bytes);
            proof {
                lemma_escape_len(bytes_contents(*bytes));
            }
            bytes_len(bytes).checked_add(count)
        },
        TelnetByteEvent::Break => Some(0),
        TelnetByteEvent::GdbInterrupt => Some(0),
        _ => Some(3),
    }
}

/// Writes `bytes` to the end of `buffer` with every `IAC` doubled.
fn encode_data(bytes: Bytes, buffer: &mut BytesMut)
    requires
        buf_contents(*old(buffer)).len() + escape(bytes_contents(bytes)).len() <= isize::MAX,
    ensures
        buf_contents(*final(buffer)) == buf_contents(*old(buffer)) + escape(bytes_contents(bytes)),
{
    let ghost data = bytes_contents(bytes);
    let ghost start = buf_contents(*buffer);
    let n = bytes_len(&bytes);
    proof {
        lemma_escape_len(data);
        assert(data.take(n as int) =~= data);
    }
    let count = count_iac(&bytes);
    proof {
        assert(data.take(n as int) =~= data);
    }
    let bytes_buffer_size = n + count;
    buf_reserve(buffer, bytes_buffer_size);
    let mut i: usize = 0;
    assert(escape(data.take(0)) =~= Seq::<u8>::empty());
    while i < n
        invariant
            i <= n,
            n == data.len(),
            data == bytes_contents(bytes),
            buf_contents(*buffer) == start + escape(data.take(i as int)),
            start.len() + escape(data).len() <= isize::MAX,
        decreases n - i,
    {
        let b = bytes_byte(&bytes, i);
        proof {
            assert(data.take(i + 1).drop_last() =~= data.take(i as int));
            lemma_escape_prefix_len(data, i + 1);
        }
        if b == IAC {
            buf_put_u8(buffer, IAC);
        }
        buf_put_u8(buffer, b);
        assert(buf_contents(*buffer) =~= start + escape(data.take(i + 1)));
        i += 1;
    }
    assert(data.take(n as int) =~= data);
}

// ---------------------------------------------------------------------------
// Facts about escaping.

proof fn lemma_escape_len(data: Seq<u8>)
    ensures
        escape(data).len() == data.len() + iac_count(data),
        iac_count(data) <= data.len(),
    decreases data.len(),
{
    if data.len() > 0 {
        lemma_escape_len(data.drop_last());
    }
}

/// What the encoder writes: an `IAC` data byte doubled; each negotiation
/// verb as `IAC`, its code and the option's code (echo 1, suppress go-ahead
/// 3, binary 0, an unsupported option its own code); breaks and gdb
/// interrupts nothing. With `lemma_escape_plain` and `lemma_escape_concat`
/// this fixes the bytes written for every event.
pub proof fn lemma_encoding_shapes(option: TelnetByteOption)
    ensures
        escape(seq![IAC]) == seq![IAC, IAC],
        encoding(SpecTelnetEvent::Will(option)) == seq![IAC, WILL, option_to_byte(option)],
        encoding(SpecTelnetEvent::Wont(option)) == seq![IAC, WONT, option_to_byte(option)],
        encoding(SpecTelnetEvent::Do(option)) == seq![IAC, DO, option_to_byte(option)],
        encoding(SpecTelnetEvent::Dont(option)) == seq![IAC, DONT, option_to_byte(option)],
        encoding(SpecTelnetEvent::Break).len() == 0,
        encoding(SpecTelnetEvent::GdbInterrupt).len() == 0,
        option == TelnetByteOption::Echo ==> option_to_byte(option) == 1,
        option == TelnetByteOption::SuppressGoAhead ==> option_to_byte(option) == 3,
        option == TelnetByteOption::Binary ==> option_to_byte(option) == 0,
        option matches TelnetByteOption::Unsupported(b) ==> option_to_byte(option) == b,
{
    let one = seq![IAC];
    assert(one.drop_last() =~= Seq::<u8>::empty());
    assert(one.last() == IAC);
    assert(escape(Seq::<u8>::empty()) =~= Seq::<u8>::empty());
    assert(escape(one) =~= seq![IAC, IAC]);
}

/// Escaping is compatible with concatenation.
pub proof fn lemma_escape_concat(a: Seq<u8>, b: Seq<u8>)
    ensures
        escape(a + b) == escape(a) + escape(b),
    decreases b.len(),
{
    if b.len() == 0 {
        assert(a + b =~= a);
        assert(escape(a) + escape(b) =~= escape(a));
    } else {
        lemma_escape_concat(a, b.drop_last());
        assert((a + b).drop_last() =~= a + b.drop_last());
        assert((a + b).last() == b.last());
        assert(escape(a + b) =~= escape(a) + escape(b));
    }
}

proof fn lemma_escape_prefix_len(data: Seq<u8>, k: int)
    requires
        0 <= k <= data.len(),
    ensures
        escape(data.take(k)).len() <= escape(data).len(),
{
    lemma_escape_concat(data.take(k), data.skip(k));
    assert(data.take(k) + data.skip(k) =~= data);
}

/// Data without `IAC` is sent as is.
pub proof fn lemma_escape_plain(data: Seq<u8>)
    requires
        forall|j: int| 0 <= j < data.len() ==> #[trigger] data[j] != IAC,
    ensures
        escape(data) == data,
    decreases data.len(),
{
    if data.len() > 0 {
        lemma_escape_plain(data.drop_last());
        assert(escape(data) =~= data);
    }
}

// ---------------------------------------------------------------------------
// Laws.

/// An option code read as an option and written back is the same code.
pub proof fn lemma_option_code_round_trip(byte: u8)
    ensures
        option_to_byte(option_from_byte(byte)) == byte,
{
}

/// An option written as its code and read back is the same option, unless
/// it is an "unsupported" option whose code is that of a known one.
pub proof fn lemma_option_round_trip(option: TelnetByteOption)
    requires
        !(option matches TelnetByteOption::Unsupported(b) && (b == OPTION_ECHO || b == OPTION_SGA
            || b == OPTION_BINARY)),
    ensures
        option_from_byte(option_to_byte(option)) == option,
{
}

/// A read takes at most what the buffer holds, and it takes nothing exactly
/// when the buffer is empty or holds only the start of a command; every
/// read that takes bytes yields an event.
pub proof fn lemma_decode_progress(interrupt_as_break: bool, s: Seq<u8>)
    ensures
        0 <= decode_step(interrupt_as_break, s).1 <= s.len(),
        decode_step(interrupt_as_break, s).1 == 0 <==> (s.len() == 0 || incomplete_command(s)),
        decode_step(interrupt_as_break, s).0 is Some <==> decode_step(interrupt_as_break, s).1 > 0,
{
    let p = control_byte(interrupt_as_break);
    if s.len() > 0 {
        lemma_first_where(s, p);
        if s[0] == IAC {
            assert(is_first_where(s, p, 0));
            lemma_first_where_at(s, p, 0);
        } else if let Some(k) = first_where(s, p) {
            if k == 0 {
                assert(interrupt_as_break && s[0] == INTERRUPT);
            }
        }
    }
}

/// A negotiation command that the encoder writes reads back as the same
/// command (its option code read again), whatever follows it, taking
/// exactly its three bytes.
pub proof fn lemma_negotiation_round_trip(interrupt_as_break: bool, event: SpecTelnetEvent, rest: Seq<u8>)
    requires
        is_negotiation(event),
    ensures
        decode_step(interrupt_as_break, encoding(event) + rest) == (Some(normalized(event)), 3int),
{
    let s = encoding(event) + rest;
    let p = control_byte(interrupt_as_break);
    assert(s[0] == IAC);
    assert(is_first_where(s, p, 0));
    lemma_first_where_at(s, p, 0);
}

/// A read at a control byte (a non-empty buffer, as the decoder calls it)
/// takes at most three bytes and at most what is there; it takes none
/// exactly when it yields nothing and the buffer starts with `IAC`, that is,
/// when a command has not fully arrived.
pub proof fn lemma_special_step_progress(interrupt_as_break: bool, s: Seq<u8>)
    requires
        s.len() > 0,
    ensures
        0 <= special_step(interrupt_as_break, s).1 <= 3,
        special_step(interrupt_as_break, s).1 <= s.len(),
        special_step(interrupt_as_break, s).1 == 0 <==> (special_step(interrupt_as_break, s).0 is None
            && s[0] == IAC),
        special_step(interrupt_as_break, s).1 == 0 <==> incomplete_command(s),
{
}

/// Bytes that end no data run: neither `IAC` nor, where control-C reads as a
/// gdb interrupt, control-C.
pub open spec fn plain_data(interrupt_as_break: bool, d: Seq<u8>) -> bool {
    forall|j: int|
        0 <= j < d.len() ==> #[trigger] d[j] != IAC && (interrupt_as_break ==> d[j] != INTERRUPT)
}

/// The first byte of `t` ends a data run.
pub open spec fn starts_with_control(interrupt_as_break: bool, t: Seq<u8>) -> bool {
    t.len() > 0 && (t[0] == IAC || (interrupt_as_break && t[0] == INTERRUPT))
}

/// Reading from an empty buffer yields nothing and takes nothing.
pub proof fn lemma_read_empty(interrupt_as_break: bool)
    ensures
        decode_step(interrupt_as_break, Seq::<u8>::empty()) == (None::<SpecTelnetEvent>, 0int),
{
}

/// A buffer of plain data reads as one data event holding all of it.
pub proof fn lemma_read_plain_data(interrupt_as_break: bool, d: Seq<u8>)
    requires
        d.len() > 0,
        plain_data(interrupt_as_break, d),
    ensures
        decode_step(interrupt_as_break, d) == (Some(SpecTelnetEvent::Data(d)), d.len() as int),
{
    let p = control_byte(interrupt_as_break);
    assert forall|j: int| 0 <= j < d.len() implies !p(#[trigger] d[j]) by {
        assert(d[j] != IAC);
    }
    lemma_first_where_none(d, p);
}

/// Plain data in front of a control byte reads as one data event holding
/// exactly that data, whatever follows; the control byte and all after it
/// stay in the buffer.
pub proof fn lemma_read_data_run(interrupt_as_break: bool, d: Seq<u8>, t: Seq<u8>)
    requires
        d.len() > 0,
        plain_data(interrupt_as_break, d),
        starts_with_control(interrupt_as_break, t),
    ensures
        decode_step(interrupt_as_break, d + t) == (Some(SpecTelnetEvent::Data(d)), d.len() as int),
{
    let p = control_byte(interrupt_as_break);
    let s = d + t;
    assert(s[d.len() as int] == t[0]);
    assert forall|j: int| 0 <= j < d.len() implies !p(#[trigger] s[j]) by {
        assert(s[j] == d[j]);
    }
    assert(is_first_where(s, p, d.len() as int));
    lemma_first_where_at(s, p, d.len() as int);
    assert(s.take(d.len() as int) =~= d);
}

proof fn lemma_read_at_iac(interrupt_as_break: bool, s: Seq<u8>)
    requires
        s.len() > 0,
        s[0] == IAC,
    ensures
        decode_step(interrupt_as_break, s) == special_step(interrupt_as_break, s),
{
    let p = control_byte(interrupt_as_break);
    assert(is_first_where(s, p, 0));
    lemma_first_where_at(s, p, 0);
}

/// A doubled `IAC` reads as one data byte 255 and takes both bytes, whatever
/// follows.
pub proof fn lemma_read_doubled_iac(interrupt_as_break: bool, rest: Seq<u8>)
    ensures
        decode_step(interrupt_as_break, seq![IAC, IAC] + rest) == (
            Some(SpecTelnetEvent::Data(seq![IAC])),
            2int,
        ),
{
    lemma_read_at_iac(interrupt_as_break, seq![IAC, IAC] + rest);
}

/// `IAC BREAK` reads as a break and takes exactly its two bytes, whatever
/// follows (nothing included).
pub proof fn lemma_read_break(interrupt_as_break: bool, rest: Seq<u8>)
    ensures
        decode_step(interrupt_as_break, seq![IAC, BREAK] + rest) == (
            Some(SpecTelnetEvent::Break),
            2int,
        ),
{
    lemma_read_at_iac(interrupt_as_break, seq![IAC, BREAK] + rest);
}

/// A three-byte command reads as its negotiation verb with its option, or as
/// empty data for any other command, and takes exactly its three bytes,
/// whatever follows.
pub proof fn lemma_read_command(interrupt_as_break: bool, command: u8, option: u8, rest: Seq<u8>)
    requires
        command != IAC,
        command != BREAK,
    ensures
        decode_step(interrupt_as_break, seq![IAC, command, option] + rest).1 == 3,
        decode_step(interrupt_as_break, seq![IAC, command, option] + rest).0 == Some(
            if command == WILL {
                SpecTelnetEvent::Will(option_from_byte(option))
            } else if command == WONT {
                SpecTelnetEvent::Wont(option_from_byte(option))
            } else if command == DO {
                SpecTelnetEvent::Do(option_from_byte(option))
            } else if command == DONT {
                SpecTelnetEvent::Dont(option_from_byte(option))
            } else {
                SpecTelnetEvent::Data(Seq::empty())
            },
        ),
{
    lemma_read_at_iac(interrupt_as_break, seq![IAC, command, option] + rest);
}

/// The option codes: 1 is echo, 3 suppress go-ahead, 0 binary, every other
/// code an unsupported option of that code.
pub proof fn lemma_option_codes(byte: u8)
    ensures
        byte == 1 ==> option_from_byte(byte) == TelnetByteOption::Echo,
        byte == 3 ==> option_from_byte(byte) == TelnetByteOption::SuppressGoAhead,
        byte == 0 ==> option_from_byte(byte) == TelnetByteOption::Binary,
        byte != 0 && byte != 1 && byte != 3 ==> option_from_byte(byte)
            == TelnetByteOption::Unsupported(byte),
{
}

/// A command that has not fully arrived (`IAC` alone, or `IAC` and a byte
/// that neither doubles it nor is `BREAK`) yields nothing and takes nothing.
pub proof fn lemma_read_incomplete(interrupt_as_break: bool, command: u8)
    ensures
        decode_step(interrupt_as_break, seq![IAC]) == (None::<SpecTelnetEvent>, 0int),
        command != IAC && command != BREAK ==> decode_step(interrupt_as_break, seq![IAC, command])
            == (None::<SpecTelnetEvent>, 0int),
{
    lemma_read_at_iac(interrupt_as_break, seq![IAC]);
    lemma_read_at_iac(interrupt_as_break, seq![IAC, command]);
}

/// Where control-C reads as a gdb interrupt, a control-C in front reads as
/// one and takes exactly that byte, whatever follows; otherwise a control-C
/// is plain data.
pub proof fn lemma_read_interrupt(interrupt_as_break: bool, rest: Seq<u8>)
    ensures
        interrupt_as_break ==> decode_step(interrupt_as_break, seq![INTERRUPT] + rest) == (
            Some(SpecTelnetEvent::GdbInterrupt),
            1int,
        ),
        !interrupt_as_break ==> plain_data(interrupt_as_break, seq![INTERRUPT]),
{
    if interrupt_as_break {
        let s = seq![INTERRUPT] + rest;
        let p = control_byte(interrupt_as_break);
        assert(s[0] == INTERRUPT);
        assert(is_first_where(s, p, 0));
        lemma_first_where_at(s, p, 0);
    }
}

/// What the control byte `c` of escaped data reads back as: a doubled
/// `IAC` as one data byte, a control-C as a gdb interrupt.
pub open spec fn control_event(c: u8) -> SpecTelnetEvent {
    if c == IAC {
        SpecTelnetEvent::Data(seq![IAC])
    } else {
        SpecTelnetEvent::GdbInterrupt
    }
}

/// The events of a data run that ends before a control byte at `k`: none
/// where the run is empty.
pub open spec fn run_events(data: Seq<u8>, k: int) -> Seq<SpecTelnetEvent> {
    if k == 0 {
        Seq::empty()
    } else {
        seq![SpecTelnetEvent::Data(data.take(k))]
    }
}

/// How escaped data reads back, one control byte at a time: the data before
/// the first control byte as one data event, then the control byte's event,
/// then what the rest reads back as; data without control bytes reads back
/// as one data event.
pub proof fn lemma_escaped_step(interrupt_as_break: bool, data: Seq<u8>)
    requires
        data.len() > 0,
    ensures
        match first_where(data, control_byte(interrupt_as_break)) {
            None => decode_all(interrupt_as_break, escape(data)) == (
                seq![SpecTelnetEvent::Data(data)],
                Seq::<u8>::empty(),
            ),
            Some(k) => {
                let rest = decode_all(interrupt_as_break, escape(data.skip(k + 1)));
                &&& is_first_where(data, control_byte(interrupt_as_break), k)
                &&& decode_all(interrupt_as_break, escape(data)) == (
                    run_events(data, k) + (seq![control_event(data[k])] + rest.0),
                    rest.1,
                )
            },
        },
{
    let flag = interrupt_as_break;
    let p = control_byte(flag);
    let s = escape(data);
    lemma_first_where(data, p);
    match first_where(data, p) {
        None => {
            assert forall|j: int| 0 <= j < data.len() implies #[trigger] data[j] != IAC by {
                assert(!p(data[j]));
            }
            lemma_escape_plain(data);
            lemma_first_where_none(s, p);
            assert(decode_step(flag, s) == (Some(SpecTelnetEvent::Data(data)), data.len() as int));
            let empty = s.skip(s.len() as int);
            assert(empty =~= Seq::<u8>::empty());
            assert(decode_step(flag, empty) == (None::<SpecTelnetEvent>, 0int));
            assert(decode_all(flag, empty) == (Seq::<SpecTelnetEvent>::empty(), empty));
            assert(decode_all(flag, s).0 =~= seq![SpecTelnetEvent::Data(data)]);
        },
        Some(k) => {
            let c = data[k];
            let pre = data.take(k);
            let post = data.skip(k + 1);
            assert forall|j: int| 0 <= j < pre.len() implies #[trigger] pre[j] != IAC by {
                assert(!p(data[j]));
            }
            lemma_escape_plain(pre);
            assert(data =~= pre + (seq![c] + post));
            lemma_escape_concat(pre, seq![c] + post);
            lemma_escape_concat(seq![c], post);
            assert(seq![c].drop_last() =~= Seq::<u8>::empty());
            assert(escape(Seq::<u8>::empty()) =~= Seq::<u8>::empty());
            let ec = escape(seq![c]);
            assert(ec =~= (if c == IAC {
                seq![IAC, IAC]
            } else {
                seq![c]
            }));
            let t = ec + escape(post);
            assert(s =~= pre + t);
            // the first control byte of `s` is where that of `data` was
            assert(is_first_where(s, p, k)) by {
                assert forall|j: int| 0 <= j < k implies !p(#[trigger] s[j]) by {
                    assert(s[j] == data[j]);
                    assert(!p(data[j]));
                }
            }
            lemma_first_where_at(s, p, k);
            assert(s.skip(k) =~= t);
            // `t` starts with the control byte, escaped
            assert(is_first_where(t, p, 0));
            lemma_first_where_at(t, p, 0);
            assert(decode_step(flag, t) == (Some(control_event(c)), ec.len() as int));
            assert(t.skip(ec.len() as int) =~= escape(post));
            let rest = decode_all(flag, escape(post));
            let tail = decode_all(flag, t);
            assert(tail == (seq![control_event(c)] + rest.0, rest.1));
            if k == 0 {
                assert(s =~= t);
                assert(run_events(data, k) + tail.0 =~= tail.0);
            } else {
                assert(s.take(k) =~= pre);
                assert(decode_step(flag, s) == (Some(SpecTelnetEvent::Data(pre)), k));
            }
        },
    }
}

/// The data of concatenated event sequences is the concatenated data.
pub proof fn lemma_data_of_concat(a: Seq<SpecTelnetEvent>, b: Seq<SpecTelnetEvent>)
    ensures
        data_of(a + b) == data_of(a) + data_of(b),
    decreases a.len(),
{
    if a.len() == 0 {
        assert(a + b =~= b);
        assert(data_of(a) + data_of(b) =~= data_of(b));
    } else {
        lemma_data_of_concat(a.drop_first(), b);
        assert((a + b).drop_first() =~= a.drop_first() + b);
        assert((a + b)[0] == a[0]);
        assert(data_of(a + b) =~= data_of(a) + data_of(b));
    }
}

proof fn lemma_data_of_one(e: SpecTelnetEvent)
    ensures
        data_of(seq![e]) == payload(e),
{
    assert(seq![e].drop_first() =~= Seq::<SpecTelnetEvent>::empty());
    assert(seq![e][0] == e);
    assert(data_of(Seq::<SpecTelnetEvent>::empty()) =~= Seq::<u8>::empty());
    assert(payload(e) + Seq::<u8>::empty() =~= payload(e));
}

/// Every event of the sequence is a data event.
pub open spec fn all_data(events: Seq<SpecTelnetEvent>) -> bool {
    forall|i: int| 0 <= i < events.len() ==> #[trigger] events[i] is Data
}

/// Data that the encoder writes reads back as the same data, in data events
/// only, with nothing left over; where control-C reads as a gdb interrupt,
/// for data without control-C.
pub proof fn lemma_data_round_trip(interrupt_as_break: bool, data: Seq<u8>)
    requires
        interrupt_as_break ==> forall|j: int| 0 <= j < data.len() ==> #[trigger] data[j] != INTERRUPT,
    ensures
        decode_all(interrupt_as_break, escape(data)).1 == Seq::<u8>::empty(),
        data_of(decode_all(interrupt_as_break, escape(data)).0) == data,
        all_data(decode_all(interrupt_as_break, escape(data)).0),
    decreases data.len(),
{
    let flag = interrupt_as_break;
    let p = control_byte(flag);
    if data.len() == 0 {
        assert(decode_step(flag, escape(data)) == (None::<SpecTelnetEvent>, 0int));
    } else {
        lemma_escaped_step(flag, data);
        match first_where(data, p) {
            None => {
                lemma_data_of_one(SpecTelnetEvent::Data(data));
            },
            Some(k) => {
                let c = data[k];
                let pre = data.take(k);
                let post = data.skip(k + 1);
                assert(c == IAC);
                assert forall|j: int| 0 <= j < post.len() && flag implies #[trigger] post[j]
                    != INTERRUPT by {
                    assert(post[j] == data[j + k + 1]);
                }
                lemma_data_round_trip(flag, post);
                let rest = decode_all(flag, escape(post));
                let head = run_events(data, k);
                let mid = seq![control_event(c)] + rest.0;
                lemma_data_of_concat(head, mid);
                lemma_data_of_concat(seq![control_event(c)], rest.0);
                lemma_data_of_one(control_event(c));
                if k > 0 {
                    lemma_data_of_one(SpecTelnetEvent::Data(pre));
                } else {
                    assert(pre =~= Seq::<u8>::empty());
                    assert(data_of(head) =~= Seq::<u8>::empty());
                }
                assert(data =~= pre + (seq![IAC] + post));
                let all = head + mid;
                assert forall|i: int| 0 <= i < all.len() implies #[trigger] all[i] is Data by {
                    if i >= head.len() + 1 {
                        assert(all[i] == rest.0[i - head.len() - 1]);
                    }
                }
            },
        }
    }
}

} // verus!
