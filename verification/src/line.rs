//! What reaches the serial line for what a client sends: the codecs and the
//! message decisions together. On a gdb endpoint every control-C the client
//! sends becomes a break followed by `g`; on any other endpoint the client's
//! bytes reach the line as they are.
use vstd::prelude::*;
use crate::mux::{gdb_break_spec, pty_event_spec, telnet_event_spec, SpecTtyMsg, SYSRQ_KGDB};
use crate::pty::{lemma_pty_step_lossless, pty_decode_all, pty_decode_step, SpecPtyEvent};
use crate::scan::{first_where, interrupt_free, lemma_first_where, INTERRUPT};
use crate::telnet::commands::IAC;
use crate::telnet::{
    control_byte, control_event, decode_all, decode_step, escape, lemma_escaped_step,
    run_events, SpecTelnetEvent,
};
use crate::pty::interrupt_byte;

verus! {

/// What happens on the serial line, one step at a time.
pub enum LineSymbol {
    Byte(u8),
    Break,
}

/// Bytes written to the line.
pub open spec fn bytes_line(d: Seq<u8>) -> Seq<LineSymbol> {
    d.map_values(|b: u8| LineSymbol::Byte(b))
}

/// What a message does on the line.
pub open spec fn msg_line(m: SpecTtyMsg) -> Seq<LineSymbol> {
    match m {
        SpecTtyMsg::Data(d) => bytes_line(d),
        SpecTtyMsg::Break => seq![LineSymbol::Break],
    }
}

/// What messages do on the line, in order.
pub open spec fn msgs_line(msgs: Seq<SpecTtyMsg>) -> Seq<LineSymbol>
    decreases msgs.len(),
{
    if msgs.len() == 0 {
        Seq::empty()
    } else {
        msg_line(msgs[0]) + msgs_line(msgs.drop_first())
    }
}

/// What the messages for pseudo-terminal events do on the line, in order.
pub open spec fn pty_line(events: Seq<SpecPtyEvent>) -> Seq<LineSymbol>
    decreases events.len(),
{
    if events.len() == 0 {
        Seq::empty()
    } else {
        msgs_line(pty_event_spec(events[0])) + pty_line(events.drop_first())
    }
}

/// What the messages for telnet events do on the line, in order.
pub open spec fn telnet_line(events: Seq<SpecTelnetEvent>) -> Seq<LineSymbol>
    decreases events.len(),
{
    if events.len() == 0 {
        Seq::empty()
    } else {
        msgs_line(telnet_event_spec(events[0])) + telnet_line(events.drop_first())
    }
}

/// One byte a gdb client sends, as it should reach the line.
pub open spec fn gdb_byte_line(b: u8) -> Seq<LineSymbol> {
    if b == INTERRUPT {
        seq![LineSymbol::Break, LineSymbol::Byte(SYSRQ_KGDB)]
    } else {
        seq![LineSymbol::Byte(b)]
    }
}

/// Bytes a gdb client sends, as they should reach the line: each control-C
/// replaced by a break followed by `g`.
pub open spec fn gdb_line(s: Seq<u8>) -> Seq<LineSymbol>
    decreases s.len(),
{
    if s.len() == 0 {
        Seq::empty()
    } else {
        gdb_byte_line(s[0]) + gdb_line(s.drop_first())
    }
}

proof fn lemma_gdb_line_concat(a: Seq<u8>, b: Seq<u8>)
    ensures
        gdb_line(a + b) == gdb_line(a) + gdb_line(b),
    decreases a.len(),
{
    if a.len() == 0 {
        assert(a + b =~= b);
        assert(gdb_line(a) + gdb_line(b) =~= gdb_line(b));
    } else {
        lemma_gdb_line_concat(a.drop_first(), b);
        assert((a + b).drop_first() =~= a.drop_first() + b);
        assert((a + b)[0] == a[0]);
        assert(gdb_line(a + b) =~= gdb_line(a) + gdb_line(b));
    }
}

proof fn lemma_gdb_line_plain(d: Seq<u8>)
    requires
        interrupt_free(d),
    ensures
        gdb_line(d) == bytes_line(d),
    decreases d.len(),
{
    if d.len() > 0 {
        assert(d[0] != INTERRUPT);
        assert forall|j: int| 0 <= j < d.drop_first().len() implies #[trigger] d.drop_first()[j]
            != INTERRUPT by {
            assert(d.drop_first()[j] == d[j + 1]);
        }
        lemma_gdb_line_plain(d.drop_first());
        assert(bytes_line(d) =~= seq![LineSymbol::Byte(d[0])] + bytes_line(d.drop_first()));
    } else {
        assert(bytes_line(d) =~= Seq::<LineSymbol>::empty());
    }
}

proof fn lemma_bytes_line_concat(a: Seq<u8>, b: Seq<u8>)
    ensures
        bytes_line(a + b) == bytes_line(a) + bytes_line(b),
{
    assert(bytes_line(a + b) =~= bytes_line(a) + bytes_line(b));
}

proof fn lemma_msgs_line_one(m: SpecTtyMsg)
    ensures
        msgs_line(seq![m]) == msg_line(m),
{
    assert(seq![m].drop_first() =~= Seq::<SpecTtyMsg>::empty());
    assert(seq![m][0] == m);
    assert(msgs_line(Seq::<SpecTtyMsg>::empty()) =~= Seq::<LineSymbol>::empty());
    assert(msg_line(m) + Seq::<LineSymbol>::empty() =~= msg_line(m));
}

proof fn lemma_gdb_break_line()
    ensures
        msgs_line(gdb_break_spec()) == gdb_line(seq![INTERRUPT]),
{
    let msgs = gdb_break_spec();
    assert(msgs.drop_first() =~= seq![SpecTtyMsg::Data(seq![SYSRQ_KGDB])]);
    lemma_msgs_line_one(SpecTtyMsg::Data(seq![SYSRQ_KGDB]));
    assert(bytes_line(seq![SYSRQ_KGDB]) =~= seq![LineSymbol::Byte(SYSRQ_KGDB)]);
    assert(seq![INTERRUPT].drop_first() =~= Seq::<u8>::empty());
    assert(seq![INTERRUPT][0] == INTERRUPT);
    assert(gdb_line(Seq::<u8>::empty()) =~= Seq::<LineSymbol>::empty());
    assert(msgs[0] == SpecTtyMsg::Break);
    assert(msg_line(SpecTtyMsg::Break) =~= seq![LineSymbol::Break]);
    assert(msgs_line(msgs) =~= seq![LineSymbol::Break] + msgs_line(msgs.drop_first()));
    assert(msgs_line(msgs) =~= gdb_line(seq![INTERRUPT]));
}

proof fn lemma_pty_line_cons(e: SpecPtyEvent, rest: Seq<SpecPtyEvent>)
    ensures
        pty_line(seq![e] + rest) == msgs_line(pty_event_spec(e)) + pty_line(rest),
{
    assert((seq![e] + rest).drop_first() =~= rest);
    assert((seq![e] + rest)[0] == e);
}

proof fn lemma_telnet_line_cons(e: SpecTelnetEvent, rest: Seq<SpecTelnetEvent>)
    ensures
        telnet_line(seq![e] + rest) == msgs_line(telnet_event_spec(e)) + telnet_line(rest),
{
    assert((seq![e] + rest).drop_first() =~= rest);
    assert((seq![e] + rest)[0] == e);
}

/// What a pseudo-terminal's bytes do on the serial line: on a gdb
/// pseudo-terminal every control-C becomes a break followed by `g`, and all
/// other bytes reach the line as they are, in order; on any other
/// pseudo-terminal every byte reaches the line as it is.
pub proof fn lemma_pty_reaches_line(interrupt_as_break: bool, s: Seq<u8>)
    ensures
        pty_line(pty_decode_all(interrupt_as_break, s)) == if interrupt_as_break {
            gdb_line(s)
        } else {
            bytes_line(s)
        },
    decreases s.len(),
{
    let flag = interrupt_as_break;
    if s.len() == 0 {
        assert(bytes_line(s) =~= Seq::<LineSymbol>::empty());
    } else {
        lemma_pty_step_lossless(flag, s);
        let (event, n) = pty_decode_step(flag, s);
        let e = event.unwrap();
        let head = s.take(n);
        let rest = s.skip(n);
        lemma_pty_reaches_line(flag, rest);
        lemma_pty_line_cons(e, pty_decode_all(flag, rest));
        assert(head + rest =~= s);
        if flag {
            lemma_gdb_line_concat(head, rest);
            lemma_first_where(s, interrupt_byte());
            match e {
                SpecPtyEvent::Data(d) => {
                    assert(interrupt_free(d)) by {
                        assert forall|j: int| 0 <= j < d.len() implies #[trigger] d[j]
                            != INTERRUPT by {
                            assert(d[j] == s[j]);
                            assert(!interrupt_byte()(s[j]));
                        }
                    }
                    lemma_gdb_line_plain(d);
                    lemma_msgs_line_one(SpecTtyMsg::Data(d));
                },
                SpecPtyEvent::GdbInterrupt => {
                    lemma_gdb_break_line();
                },
            }
        } else {
            lemma_bytes_line_concat(head, rest);
            lemma_msgs_line_one(SpecTtyMsg::Data(s));
            assert(rest =~= Seq::<u8>::empty());
            assert(pty_decode_all(flag, rest) =~= Seq::<SpecPtyEvent>::empty());
            assert(bytes_line(rest) =~= Seq::<LineSymbol>::empty());
        }
    }
}

proof fn lemma_telnet_line_concat(a: Seq<SpecTelnetEvent>, b: Seq<SpecTelnetEvent>)
    ensures
        telnet_line(a + b) == telnet_line(a) + telnet_line(b),
    decreases a.len(),
{
    if a.len() == 0 {
        assert(a + b =~= b);
        assert(telnet_line(a) + telnet_line(b) =~= telnet_line(b));
    } else {
        lemma_telnet_line_concat(a.drop_first(), b);
        assert((a + b).drop_first() =~= a.drop_first() + b);
        assert((a + b)[0] == a[0]);
        assert(telnet_line(a + b) =~= telnet_line(a) + telnet_line(b));
    }
}

/// What a telnet client's data does on the serial line: the data that a
/// client sends (with every `IAC` doubled, as telnet requires) reaches the
/// line with every control-C turned into a break followed by `g` on a gdb
/// port, and as it is on any other port, in order.
pub proof fn lemma_telnet_data_reaches_line(interrupt_as_break: bool, data: Seq<u8>)
    ensures
        decode_all(interrupt_as_break, escape(data)).1 == Seq::<u8>::empty(),
        telnet_line(decode_all(interrupt_as_break, escape(data)).0) == if interrupt_as_break {
            gdb_line(data)
        } else {
            bytes_line(data)
        },
    decreases data.len(),
{
    let flag = interrupt_as_break;
    let p = control_byte(flag);
    if data.len() == 0 {
        assert(decode_step(flag, escape(data)) == (None::<SpecTelnetEvent>, 0int));
        assert(bytes_line(data) =~= Seq::<LineSymbol>::empty());
    } else {
        lemma_escaped_step(flag, data);
        lemma_first_where(data, p);
        match first_where(data, p) {
            None => {
                lemma_telnet_line_cons(SpecTelnetEvent::Data(data), Seq::empty());
                lemma_msgs_line_one(SpecTtyMsg::Data(data));
                if flag {
                    assert(interrupt_free(data)) by {
                        assert forall|j: int| 0 <= j < data.len() implies #[trigger] data[j]
                            != INTERRUPT by {
                            assert(!p(data[j]));
                        }
                    }
                    lemma_gdb_line_plain(data);
                }
                assert(bytes_line(data) + Seq::<LineSymbol>::empty() =~= bytes_line(data));
            },
            Some(k) => {
                let c = data[k];
                let pre = data.take(k);
                let post = data.skip(k + 1);
                assert(data =~= pre + (seq![c] + post));
                lemma_telnet_data_reaches_line(flag, post);
                let rest = decode_all(flag, escape(post));
                let head = run_events(data, k);
                let e = control_event(c);
                lemma_telnet_line_concat(head, seq![e] + rest.0);
                lemma_telnet_line_cons(e, rest.0);
                // the line for the control byte alone
                let mid = if flag {
                    gdb_line(seq![c])
                } else {
                    bytes_line(seq![c])
                };
                assert(msgs_line(telnet_event_spec(e)) == mid) by {
                    if c == IAC {
                        lemma_msgs_line_one(SpecTtyMsg::Data(seq![IAC]));
                        assert(seq![c].drop_first() =~= Seq::<u8>::empty());
                        assert(seq![c][0] == c);
                        assert(gdb_line(Seq::<u8>::empty()) =~= Seq::<LineSymbol>::empty());
                        assert(bytes_line(seq![IAC]) =~= seq![LineSymbol::Byte(IAC)]);
                        assert(gdb_line(seq![c]) =~= seq![LineSymbol::Byte(IAC)]);
                    } else {
                        lemma_gdb_break_line();
                    }
                }
                // the line for the data before the control byte
                let pre_line = if flag {
                    gdb_line(pre)
                } else {
                    bytes_line(pre)
                };
                if k == 0 {
                    assert(pre =~= Seq::<u8>::empty());
                    assert(bytes_line(pre) =~= Seq::<LineSymbol>::empty());
                    assert(telnet_line(head) =~= Seq::<LineSymbol>::empty());
                } else {
                    lemma_telnet_line_cons(SpecTelnetEvent::Data(pre), Seq::empty());
                    lemma_msgs_line_one(SpecTtyMsg::Data(pre));
                    assert(seq![SpecTelnetEvent::Data(pre)] + Seq::<SpecTelnetEvent>::empty()
                        =~= head);
                    assert(bytes_line(pre) + Seq::<LineSymbol>::empty() =~= bytes_line(pre));
                }
                if flag {
                    assert(interrupt_free(pre)) by {
                        assert forall|j: int| 0 <= j < pre.len() implies #[trigger] pre[j]
                            != INTERRUPT by {
                            assert(!p(data[j]));
                        }
                    }
                    lemma_gdb_line_plain(pre);
                    lemma_gdb_line_concat(pre, seq![c] + post);
                    lemma_gdb_line_concat(seq![c], post);
                } else {
                    lemma_bytes_line_concat(pre, seq![c] + post);
                    lemma_bytes_line_concat(seq![c], post);
                }
                assert(telnet_line(head) == pre_line);
            },
        }
    }
}

// ---------------------------------------------------------------------------
// The same, message by message.

/// The messages for pseudo-terminal events, in order.
pub open spec fn pty_msgs(events: Seq<SpecPtyEvent>) -> Seq<SpecTtyMsg>
    decreases events.len(),
{
    if events.len() == 0 {
        Seq::empty()
    } else {
        pty_event_spec(events[0]) + pty_msgs(events.drop_first())
    }
}

/// The messages for telnet events, in order.
pub open spec fn telnet_msgs(events: Seq<SpecTelnetEvent>) -> Seq<SpecTtyMsg>
    decreases events.len(),
{
    if events.len() == 0 {
        Seq::empty()
    } else {
        telnet_event_spec(events[0]) + telnet_msgs(events.drop_first())
    }
}

/// The client bytes that messages stand for: data as its bytes, and a break
/// directly followed by the data `g` as one control-C.
pub open spec fn read_back(msgs: Seq<SpecTtyMsg>) -> Seq<u8>
    decreases msgs.len(),
{
    if msgs.len() == 0 {
        Seq::empty()
    } else {
        match msgs[0] {
            SpecTtyMsg::Data(c) => c + read_back(msgs.drop_first()),
            SpecTtyMsg::Break => if msgs.len() >= 2 && msgs[1] == SpecTtyMsg::Data(seq![SYSRQ_KGDB]) {
                seq![INTERRUPT] + read_back(msgs.skip(2))
            } else {
                read_back(msgs.drop_first())
            },
        }
    }
}

/// Every break is directly followed by the data `g`, and no data holds a
/// control-C.
pub open spec fn gdb_msgs_ok(msgs: Seq<SpecTtyMsg>) -> bool {
    &&& forall|i: int|
        0 <= i < msgs.len() && (#[trigger] msgs[i]) is Break ==> i + 1 < msgs.len() && msgs[i + 1]
            == SpecTtyMsg::Data(seq![SYSRQ_KGDB])
    &&& forall|i: int|
        0 <= i < msgs.len() ==> ((#[trigger] msgs[i]) matches SpecTtyMsg::Data(c) ==> interrupt_free(
            c,
        ))
}

/// Every message is data.
pub open spec fn all_data_msgs(msgs: Seq<SpecTtyMsg>) -> bool {
    forall|i: int| 0 <= i < msgs.len() ==> (#[trigger] msgs[i]) is Data
}

proof fn lemma_msgs_cons_data(d: Seq<u8>, rest: Seq<SpecTtyMsg>)
    ensures
        read_back(seq![SpecTtyMsg::Data(d)] + rest) == d + read_back(rest),
        interrupt_free(d) && gdb_msgs_ok(rest) ==> gdb_msgs_ok(seq![SpecTtyMsg::Data(d)] + rest),
        all_data_msgs(rest) ==> all_data_msgs(seq![SpecTtyMsg::Data(d)] + rest),
{
    let m = seq![SpecTtyMsg::Data(d)] + rest;
    assert(m.drop_first() =~= rest);
    assert(m[0] == SpecTtyMsg::Data(d));
    assert forall|i: int| 1 <= i < m.len() implies #[trigger] m[i] == rest[i - 1] by {}
    if interrupt_free(d) && gdb_msgs_ok(rest) {
        assert forall|i: int| 0 <= i < m.len() && (#[trigger] m[i]) is Break implies i + 1 < m.len()
            && m[i + 1] == SpecTtyMsg::Data(seq![SYSRQ_KGDB]) by {
            assert(rest[i - 1] is Break);
        }
        assert forall|i: int| 0 <= i < m.len() implies ((#[trigger] m[i]) matches SpecTtyMsg::Data(
            c,
        ) ==> interrupt_free(c)) by {
            if i > 0 {
                assert(m[i] == rest[i - 1]);
            }
        }
    }
}

proof fn lemma_msgs_cons_break(rest: Seq<SpecTtyMsg>)
    ensures
        read_back(gdb_break_spec() + rest) == seq![INTERRUPT] + read_back(rest),
        gdb_msgs_ok(rest) ==> gdb_msgs_ok(gdb_break_spec() + rest),
{
    let g = SpecTtyMsg::Data(seq![SYSRQ_KGDB]);
    let m = gdb_break_spec() + rest;
    assert(m[0] == SpecTtyMsg::Break);
    assert(m[1] == g);
    assert(m.skip(2) =~= rest);
    assert forall|i: int| 2 <= i < m.len() implies #[trigger] m[i] == rest[i - 2] by {}
    if gdb_msgs_ok(rest) {
        assert forall|i: int| 0 <= i < m.len() && (#[trigger] m[i]) is Break implies i + 1 < m.len()
            && m[i + 1] == g by {
            if i >= 2 {
                assert(rest[i - 2] is Break);
            }
        }
        assert forall|i: int| 0 <= i < m.len() implies ((#[trigger] m[i]) matches SpecTtyMsg::Data(
            c,
        ) ==> interrupt_free(c)) by {
            if i == 1 {
                assert(seq![SYSRQ_KGDB][0] != INTERRUPT);
            }
        }
    }
}

proof fn lemma_pty_msgs_cons(e: SpecPtyEvent, rest: Seq<SpecPtyEvent>)
    ensures
        pty_msgs(seq![e] + rest) == pty_event_spec(e) + pty_msgs(rest),
{
    assert((seq![e] + rest).drop_first() =~= rest);
    assert((seq![e] + rest)[0] == e);
}

proof fn lemma_telnet_msgs_concat(a: Seq<SpecTelnetEvent>, b: Seq<SpecTelnetEvent>)
    ensures
        telnet_msgs(a + b) == telnet_msgs(a) + telnet_msgs(b),
    decreases a.len(),
{
    if a.len() == 0 {
        assert(a + b =~= b);
        assert(telnet_msgs(a) + telnet_msgs(b) =~= telnet_msgs(b));
    } else {
        lemma_telnet_msgs_concat(a.drop_first(), b);
        assert((a + b).drop_first() =~= a.drop_first() + b);
        assert((a + b)[0] == a[0]);
        assert(telnet_msgs(a + b) =~= telnet_msgs(a) + telnet_msgs(b));
    }
}

proof fn lemma_telnet_msgs_one(e: SpecTelnetEvent)
    ensures
        telnet_msgs(seq![e]) == telnet_event_spec(e),
{
    assert(seq![e].drop_first() =~= Seq::<SpecTelnetEvent>::empty());
    assert(seq![e][0] == e);
    assert(telnet_msgs(Seq::<SpecTelnetEvent>::empty()) =~= Seq::<SpecTtyMsg>::empty());
    assert(telnet_event_spec(e) + Seq::<SpecTtyMsg>::empty() =~= telnet_event_spec(e));
}

/// A client that only negotiates sends the serial line nothing: the
/// messages for any sequence of negotiation commands are none.
pub proof fn lemma_negotiation_not_forwarded(events: Seq<SpecTelnetEvent>)
    requires
        forall|i: int|
            0 <= i < events.len() ==> (#[trigger] events[i] is Will || events[i] is Wont
                || events[i] is Do || events[i] is Dont),
    ensures
        telnet_msgs(events).len() == 0,
    decreases events.len(),
{
    if events.len() > 0 {
        let rest = events.drop_first();
        assert forall|i: int| 0 <= i < rest.len() implies (#[trigger] rest[i] is Will
            || rest[i] is Wont || rest[i] is Do || rest[i] is Dont) by {
            assert(rest[i] == events[i + 1]);
        }
        lemma_negotiation_not_forwarded(rest);
        assert(events[0] is Will || events[0] is Wont || events[0] is Do || events[0] is Dont);
    }
}

/// The messages that a pseudo-terminal's bytes become stand for exactly those
/// bytes, in order. On a gdb pseudo-terminal each control-C becomes a break
/// directly followed by the data `g`, and no data message holds a control-C;
/// on any other pseudo-terminal all messages are data.
pub proof fn lemma_pty_messages(interrupt_as_break: bool, s: Seq<u8>)
    ensures
        read_back(pty_msgs(pty_decode_all(interrupt_as_break, s))) == s,
        interrupt_as_break ==> gdb_msgs_ok(pty_msgs(pty_decode_all(interrupt_as_break, s))),
        !interrupt_as_break ==> all_data_msgs(pty_msgs(pty_decode_all(interrupt_as_break, s))),
    decreases s.len(),
{
    let flag = interrupt_as_break;
    if s.len() == 0 {
        assert(s =~= Seq::<u8>::empty());
    } else {
        lemma_pty_step_lossless(flag, s);
        let (event, n) = pty_decode_step(flag, s);
        let e = event.unwrap();
        let rest = s.skip(n);
        lemma_pty_messages(flag, rest);
        lemma_pty_msgs_cons(e, pty_decode_all(flag, rest));
        assert(s.take(n) + rest =~= s);
        let tail = pty_msgs(pty_decode_all(flag, rest));
        match e {
            SpecPtyEvent::Data(d) => {
                if flag {
                    lemma_first_where(s, interrupt_byte());
                    assert(interrupt_free(d)) by {
                        assert forall|j: int| 0 <= j < d.len() implies #[trigger] d[j]
                            != INTERRUPT by {
                            assert(d[j] == s[j]);
                            assert(!interrupt_byte()(s[j]));
                        }
                    }
                }
                lemma_msgs_cons_data(d, tail);
            },
            SpecPtyEvent::GdbInterrupt => {
                lemma_msgs_cons_break(tail);
            },
        }
    }
}

/// The messages that a telnet client's data becomes (the data sent with
/// every `IAC` doubled) stand for exactly that data, in order. On a gdb port
/// each control-C becomes a break directly followed by the data `g`, and no
/// data message holds a control-C; on any other port all messages are data.
pub proof fn lemma_telnet_messages(interrupt_as_break: bool, data: Seq<u8>)
    ensures
        read_back(telnet_msgs(decode_all(interrupt_as_break, escape(data)).0)) == data,
        interrupt_as_break ==> gdb_msgs_ok(
            telnet_msgs(decode_all(interrupt_as_break, escape(data)).0),
        ),
        !interrupt_as_break ==> all_data_msgs(
            telnet_msgs(decode_all(interrupt_as_break, escape(data)).0),
        ),
    decreases data.len(),
{
    let flag = interrupt_as_break;
    let p = control_byte(flag);
    if data.len() == 0 {
        assert(decode_step(flag, escape(data)) == (None::<SpecTelnetEvent>, 0int));
    } else {
        lemma_escaped_step(flag, data);
        lemma_first_where(data, p);
        match first_where(data, p) {
            None => {
                lemma_telnet_msgs_one(SpecTelnetEvent::Data(data));
                if flag {
                    assert(interrupt_free(data)) by {
                        assert forall|j: int| 0 <= j < data.len() implies #[trigger] data[j]
                            != INTERRUPT by {
                            assert(!p(data[j]));
                        }
                    }
                }
                lemma_msgs_cons_data(data, Seq::empty());
                assert(seq![SpecTtyMsg::Data(data)] + Seq::<SpecTtyMsg>::empty() =~= seq![
                    SpecTtyMsg::Data(data),
                ]);
                assert(data + Seq::<u8>::empty() =~= data);
            },
            Some(k) => {
                let c = data[k];
                let pre = data.take(k);
                let post = data.skip(k + 1);
                assert(data =~= pre + (seq![c] + post));
                lemma_telnet_messages(flag, post);
                let rest = decode_all(flag, escape(post));
                let head = run_events(data, k);
                let e = control_event(c);
                lemma_telnet_msgs_concat(head, seq![e] + rest.0);
                lemma_telnet_msgs_concat(seq![e], rest.0);
                lemma_telnet_msgs_one(e);
                let tail = telnet_msgs(rest.0);
                // the control byte's messages, then the rest
                let mid = telnet_event_spec(e) + tail;
                if c == IAC {
                    assert(interrupt_free(seq![IAC]));
                    lemma_msgs_cons_data(seq![IAC], tail);
                } else {
                    assert(flag);
                    lemma_msgs_cons_break(tail);
                }
                assert(read_back(mid) == seq![c] + post);
                if k == 0 {
                    assert(pre =~= Seq::<u8>::empty());
                    assert(telnet_msgs(head) =~= Seq::<SpecTtyMsg>::empty());
                    assert(telnet_msgs(head) + mid =~= mid);
                } else {
                    lemma_telnet_msgs_one(SpecTelnetEvent::Data(pre));
                    if flag {
                        assert(interrupt_free(pre)) by {
                            assert forall|j: int| 0 <= j < pre.len() implies #[trigger] pre[j]
                                != INTERRUPT by {
                                assert(!p(data[j]));
                            }
                        }
                    }
                    lemma_msgs_cons_data(pre, mid);
                }
            },
        }
    }
}

} // verus!
