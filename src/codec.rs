//! Binary wire format: big-endian integers, strings prefixed by a one-byte length.
use vstd::prelude::*;
use vstd::string::StringSliceAdditionalSpecFns;
use vstd::utf8::valid_utf8;

verus! {

pub const TAG_ERROR: u8 = 0x10;
pub const TAG_PLATE: u8 = 0x20;
pub const TAG_TICKET: u8 = 0x21;
pub const TAG_WANT_HEARTBEAT: u8 = 0x40;
pub const TAG_HEARTBEAT: u8 = 0x41;
pub const TAG_I_AM_CAMERA: u8 = 0x80;
pub const TAG_I_AM_DISPATCHER: u8 = 0x81;

/// Big-endian bytes of a 16-bit value.
pub open spec fn be16(v: u16) -> Seq<u8> {
    seq![(v / 256) as u8, (v % 256) as u8]
}

/// Big-endian bytes of a 32-bit value.
pub open spec fn be32(v: u32) -> Seq<u8> {
    seq![
        (v / 0x1000000) as u8,
        ((v / 0x10000) % 256) as u8,
        ((v / 256) % 256) as u8,
        (v % 256) as u8,
    ]
}

/// A speeding ticket: the two observations it rests on, and the average
/// speed between them in hundredths of a mile per hour.
#[derive(Debug, PartialEq, Eq)]
pub struct Ticket {
    pub plate: Vec<u8>,
    pub road: u16,
    pub mile1: u16,
    pub timestamp1: u32,
    pub mile2: u16,
    pub timestamp2: u32,
    pub speed: u16,
}

/// Mathematical form of a [`Ticket`].
pub ghost struct TicketView {
    pub plate: Seq<u8>,
    pub road: u16,
    pub mile1: u16,
    pub timestamp1: u32,
    pub mile2: u16,
    pub timestamp2: u32,
    pub speed: u16,
}

impl View for Ticket {
    type V = TicketView;

    open spec fn view(&self) -> TicketView {
        TicketView {
            plate: self.plate@,
            road: self.road,
            mile1: self.mile1,
            timestamp1: self.timestamp1,
            mile2: self.mile2,
            timestamp2: self.timestamp2,
            speed: self.speed,
        }
    }
}

impl Clone for Ticket {
    fn clone(&self) -> (r: Ticket)
        ensures
            r@ == self@,
    {
        Ticket {
            plate: self.plate.clone(),
            road: self.road,
            mile1: self.mile1,
            timestamp1: self.timestamp1,
            mile2: self.mile2,
            timestamp2: self.timestamp2,
            speed: self.speed,
        }
    }
}

/// Concatenated big-endian bytes of a list of road numbers.
pub open spec fn roads_bytes(roads: Seq<u16>) -> Seq<u8>
    decreases roads.len(),
{
    if roads.len() == 0 {
        Seq::empty()
    } else {
        roads_bytes(roads.drop_last()) + be16(roads.last())
    }
}

/// A message sent by a client.
pub enum InboundMessage {
    Plate { plate: Vec<u8>, timestamp: u32 },
    WantHeartbeat { interval: u32 },
    IAmCamera { road: u16, mile: u16, limit: u16 },
    IAmDispatcher { roads: Vec<u16> },
}

/// Mathematical form of an [`InboundMessage`].
pub ghost enum InboundView {
    Plate { plate: Seq<u8>, timestamp: u32 },
    WantHeartbeat { interval: u32 },
    IAmCamera { road: u16, mile: u16, limit: u16 },
    IAmDispatcher { roads: Seq<u16> },
}

impl View for InboundMessage {
    type V = InboundView;

    open spec fn view(&self) -> InboundView {
        match self {
            InboundMessage::Plate { plate, timestamp } => InboundView::Plate {
                plate: plate@,
                timestamp: *timestamp,
            },
            InboundMessage::WantHeartbeat { interval } => InboundView::WantHeartbeat {
                interval: *interval,
            },
            InboundMessage::IAmCamera { road, mile, limit } => InboundView::IAmCamera {
                road: *road,
                mile: *mile,
                limit: *limit,
            },
            InboundMessage::IAmDispatcher { roads } => InboundView::IAmDispatcher {
                roads: roads@,
            },
        }
    }
}

/// A message can be put on the wire: its lists fit a one-byte count, and a
/// plate is text in UTF-8.
pub open spec fn inbound_wf(m: InboundView) -> bool {
    match m {
        InboundView::Plate { plate, .. } => plate.len() <= 255 && valid_utf8(plate),
        InboundView::IAmDispatcher { roads } => roads.len() <= 255,
        _ => true,
    }
}

/// The bytes of one inbound message on the wire.
pub open spec fn inbound_bytes(m: InboundView) -> Seq<u8> {
    match m {
        InboundView::Plate { plate, timestamp } => seq![TAG_PLATE, plate.len() as u8] + plate
            + be32(timestamp),
        InboundView::WantHeartbeat { interval } => seq![TAG_WANT_HEARTBEAT] + be32(interval),
        InboundView::IAmCamera { road, mile, limit } => seq![TAG_I_AM_CAMERA] + be16(road) + be16(
            mile,
        ) + be16(limit),
        InboundView::IAmDispatcher { roads } => seq![TAG_I_AM_DISPATCHER, roads.len() as u8]
            + roads_bytes(roads),
    }
}

/// `p` is the start of `s`.
pub open spec fn is_prefix_of(p: Seq<u8>, s: Seq<u8>) -> bool {
    p.len() <= s.len() && s.subrange(0, p.len() as int) == p
}

/// The tag bytes that start an inbound message.
pub open spec fn is_inbound_tag(b: u8) -> bool {
    b == TAG_PLATE || b == TAG_WANT_HEARTBEAT || b == TAG_I_AM_CAMERA || b == TAG_I_AM_DISPATCHER
}

/// What the decoder found at the start of a buffer.
pub enum DecodeStep {
    /// A whole message, which took the first `used` bytes.
    Message { msg: InboundMessage, used: usize },
    /// The buffer holds the start of a message but not all of it.
    Incomplete,
    /// The buffer is empty: the stream ended cleanly between messages.
    Empty,
    /// The first byte is not the tag of any inbound message.
    UnknownTag,
    /// A whole Plate frame is there, but its plate is not valid UTF-8.
    InvalidPlate,
}

pub proof fn lemma_roads_bytes_len(roads: Seq<u16>)
    ensures
        roads_bytes(roads).len() == 2 * roads.len(),
    decreases roads.len(),
{
    if roads.len() > 0 {
        lemma_roads_bytes_len(roads.drop_last());
    }
}

proof fn lemma_be16_injective(a: u16, b: u16)
    requires
        be16(a) == be16(b),
    ensures
        a == b,
{
    assert(be16(a)[0] == be16(b)[0] && be16(a)[1] == be16(b)[1]);
}

proof fn lemma_be32_injective(a: u32, b: u32)
    requires
        be32(a) == be32(b),
    ensures
        a == b,
{
    assert(be32(a)[0] == be32(b)[0] && be32(a)[1] == be32(b)[1] && be32(a)[2] == be32(b)[2]
        && be32(a)[3] == be32(b)[3]);
}

proof fn lemma_roads_bytes_injective(r1: Seq<u16>, r2: Seq<u16>)
    requires
        r1.len() == r2.len(),
        roads_bytes(r1) == roads_bytes(r2),
    ensures
        r1 == r2,
    decreases r1.len(),
{
    if r1.len() > 0 {
        let p1 = roads_bytes(r1.drop_last());
        let p2 = roads_bytes(r2.drop_last());
        lemma_roads_bytes_len(r1.drop_last());
        lemma_roads_bytes_len(r2.drop_last());
        let b = roads_bytes(r1);
        assert(b.subrange(0, p1.len() as int) =~= p1);
        assert(b.subrange(0, p2.len() as int) =~= p2);
        assert(b.subrange(p1.len() as int, b.len() as int) =~= be16(r1.last()));
        assert(b.subrange(p2.len() as int, b.len() as int) =~= be16(r2.last()));
        lemma_be16_injective(r1.last(), r2.last());
        lemma_roads_bytes_injective(r1.drop_last(), r2.drop_last());
        assert(r1 =~= r1.drop_last().push(r1.last()));
        assert(r2 =~= r2.drop_last().push(r2.last()));
    }
}

/// The wire format is unambiguous: at most one message can start a buffer,
/// so the message that the decoder reports is the only one there is.
pub proof fn lemma_inbound_unambiguous(m1: InboundView, m2: InboundView, buf: Seq<u8>)
    requires
        inbound_wf(m1),
        inbound_wf(m2),
        is_prefix_of(inbound_bytes(m1), buf),
        is_prefix_of(inbound_bytes(m2), buf),
    ensures
        m1 == m2,
{
    let e1 = inbound_bytes(m1);
    let e2 = inbound_bytes(m2);
    assert(e1[0] == buf[0] && e2[0] == buf[0]);
    match m1 {
        InboundView::Plate { plate: p1, timestamp: t1 } => {
            if let InboundView::Plate { plate: p2, timestamp: t2 } = m2 {
                assert(e1[1] == buf[1] && e2[1] == buf[1]);
                assert(p1.len() == p2.len());
                let n = p1.len() as int;
                assert(e1.subrange(2, 2 + n) =~= p1);
                assert(e2.subrange(2, 2 + n) =~= p2);
                assert(buf.subrange(2, 2 + n) =~= e1.subrange(2, 2 + n));
                assert(buf.subrange(2, 2 + n) =~= e2.subrange(2, 2 + n));
                assert(e1.subrange(2 + n, 6 + n) =~= be32(t1));
                assert(e2.subrange(2 + n, 6 + n) =~= be32(t2));
                assert(buf.subrange(2 + n, 6 + n) =~= e1.subrange(2 + n, 6 + n));
                assert(buf.subrange(2 + n, 6 + n) =~= e2.subrange(2 + n, 6 + n));
                lemma_be32_injective(t1, t2);
            }
        },
        InboundView::WantHeartbeat { interval: i1 } => {
            if let InboundView::WantHeartbeat { interval: i2 } = m2 {
                assert(e1.subrange(1, 5) =~= be32(i1));
                assert(e2.subrange(1, 5) =~= be32(i2));
                assert(buf.subrange(1, 5) =~= e1.subrange(1, 5));
                assert(buf.subrange(1, 5) =~= e2.subrange(1, 5));
                lemma_be32_injective(i1, i2);
            }
        },
        InboundView::IAmCamera { road: r1, mile: k1, limit: l1 } => {
            if let InboundView::IAmCamera { road: r2, mile: k2, limit: l2 } = m2 {
                assert(buf.subrange(1, 3) =~= e1.subrange(1, 3));
                assert(buf.subrange(1, 3) =~= e2.subrange(1, 3));
                assert(buf.subrange(3, 5) =~= e1.subrange(3, 5));
                assert(buf.subrange(3, 5) =~= e2.subrange(3, 5));
                assert(buf.subrange(5, 7) =~= e1.subrange(5, 7));
                assert(buf.subrange(5, 7) =~= e2.subrange(5, 7));
                assert(e1.subrange(1, 3) =~= be16(r1) && e2.subrange(1, 3) =~= be16(r2));
                assert(e1.subrange(3, 5) =~= be16(k1) && e2.subrange(3, 5) =~= be16(k2));
                assert(e1.subrange(5, 7) =~= be16(l1) && e2.subrange(5, 7) =~= be16(l2));
                lemma_be16_injective(r1, r2);
                lemma_be16_injective(k1, k2);
                lemma_be16_injective(l1, l2);
            }
        },
        InboundView::IAmDispatcher { roads: r1 } => {
            if let InboundView::IAmDispatcher { roads: r2 } = m2 {
                assert(e1[1] == buf[1] && e2[1] == buf[1]);
                assert(r1.len() == r2.len());
                lemma_roads_bytes_len(r1);
                lemma_roads_bytes_len(r2);
                let n = 2 * r1.len() as int;
                assert(e1.subrange(2, 2 + n) =~= roads_bytes(r1));
                assert(e2.subrange(2, 2 + n) =~= roads_bytes(r2));
                assert(buf.subrange(2, 2 + n) =~= e1.subrange(2, 2 + n));
                assert(buf.subrange(2, 2 + n) =~= e2.subrange(2, 2 + n));
                lemma_roads_bytes_injective(r1, r2);
            }
        },
    }
}

fn read_u16(buf: &[u8], at: usize) -> (r: u16)
    requires
        at + 2 <= buf@.len(),
    ensures
        be16(r) == buf@.subrange(at as int, at + 2),
{
    let r: u16 = (buf[at] as u16) * 256 + (buf[at + 1] as u16);
    assert(be16(r) =~= buf@.subrange(at as int, at + 2));
    r
}

proof fn lemma_be32_parts(a: u8, b: u8, c: u8, d: u8)
    ensures
        be32(((a as u32) * 0x1000000 + (b as u32) * 0x10000 + (c as u32) * 256 + (d as u32)) as u32)
            == seq![a, b, c, d],
{
    let v: u32 = ((a as u32) * 0x1000000 + (b as u32) * 0x10000 + (c as u32) * 256 + (d as u32)) as u32;
    assert(v / 0x1000000 == a as u32 && (v / 0x10000) % 256 == b as u32 && (v / 256) % 256
        == c as u32 && v % 256 == d as u32) by (bit_vector)
        requires
            v == (a as u32) * 0x1000000 + (b as u32) * 0x10000 + (c as u32) * 256 + (d as u32),
    ;
    assert(be32(v) =~= seq![a, b, c, d]);
}

fn read_u32(buf: &[u8], at: usize) -> (r: u32)
    requires
        at + 4 <= buf@.len(),
    ensures
        be32(r) == buf@.subrange(at as int, at + 4),
{
    let b0: u32 = buf[at] as u32;
    let b1: u32 = buf[at + 1] as u32;
    let b2: u32 = buf[at + 2] as u32;
    let b3: u32 = buf[at + 3] as u32;
    let r: u32 = b0 * 0x1000000 + b1 * 0x10000 + b2 * 256 + b3;
    proof {
        lemma_be32_parts(buf[at as int], buf[at + 1], buf[at + 2], buf[at + 3]);
    }
    assert(be32(r) =~= buf@.subrange(at as int, at + 4));
    r
}

/// `buf` holds a whole Plate frame at its start.
pub open spec fn plate_frame_complete(buf: Seq<u8>) -> bool {
    buf.len() >= 2 && buf[0] == TAG_PLATE && buf.len() >= 6 + buf[1] as int
}

/// Relies on std's `core::str::from_utf8`: it succeeds exactly when the
/// bytes are well-formed UTF-8.
#[verifier::external_body]
fn is_utf8(bytes: &[u8]) -> (r: bool)
    ensures
        r == valid_utf8(bytes@),
{
    core::str::from_utf8(bytes).is_ok()
}

/// Decodes the message at the start of `buf`, if the whole of it is there.
pub fn decode_inbound(buf: &[u8]) -> (r: DecodeStep)
    ensures
        r is Empty <==> buf@.len() == 0,
        r is UnknownTag <==> buf@.len() > 0 && !is_inbound_tag(buf@[0]),
        r matches DecodeStep::Message { msg, used } ==> inbound_wf(msg@) && used
            == inbound_bytes(msg@).len() && is_prefix_of(inbound_bytes(msg@), buf@),
        r is InvalidPlate <==> plate_frame_complete(buf@) && !valid_utf8(
            buf@.subrange(2, 2 + buf@[1] as int),
        ),
        (r is Incomplete || r is InvalidPlate) ==> forall|m: InboundView|
            inbound_wf(m) ==> !is_prefix_of(#[trigger] inbound_bytes(m), buf@),
{
    let n = buf.len();
    if n == 0 {
        return DecodeStep::Empty;
    }
    let tag = buf[0];
    if tag == TAG_PLATE {
        if n < 2 || n < 6 + buf[1] as usize {
            proof {
                assert forall|m: InboundView|
                    inbound_wf(m) && is_prefix_of(#[trigger] inbound_bytes(m), buf@) implies false by {
                    let e = inbound_bytes(m);
                    assert(e[0] == buf@[0]);
                    if let InboundView::Plate { plate, timestamp } = m {
                        assert(e[1] == buf@[1]);
                    }
                }
            }
            return DecodeStep::Incomplete;
        }
        let len = buf[1] as usize;
        let plate_bytes = vstd::slice::slice_subrange(buf, 2, 2 + len);
        if !is_utf8(plate_bytes) {
            proof {
                assert forall|m: InboundView|
                    inbound_wf(m) && is_prefix_of(#[trigger] inbound_bytes(m), buf@) implies false by {
                    let e = inbound_bytes(m);
                    assert(e[0] == buf@[0]);
                    if let InboundView::Plate { plate, timestamp } = m {
                        assert(e[1] == buf@[1]);
                        assert(e.subrange(2, 2 + len) =~= plate);
                        assert(buf@.subrange(2, 2 + len) =~= e.subrange(2, 2 + len));
                    }
                }
            }
            return DecodeStep::InvalidPlate;
        }
        let plate = vstd::slice::slice_to_vec(plate_bytes);
        let timestamp = read_u32(buf, 2 + len);
        let msg = InboundMessage::Plate { plate, timestamp };
        assert(is_prefix_of(inbound_bytes(msg@), buf@)) by {
            assert(buf@.subrange(0, 6 + len) =~= inbound_bytes(msg@));
        }
        DecodeStep::Message { msg, used: 6 + len }
    } else if tag == TAG_WANT_HEARTBEAT {
        if n < 5 {
            proof {
                assert forall|m: InboundView|
                    inbound_wf(m) && is_prefix_of(#[trigger] inbound_bytes(m), buf@) implies false by {
                    let e = inbound_bytes(m);
                    assert(e[0] == buf@[0]);
                }
            }
            return DecodeStep::Incomplete;
        }
        let interval = read_u32(buf, 1);
        let msg = InboundMessage::WantHeartbeat { interval };
        assert(is_prefix_of(inbound_bytes(msg@), buf@)) by {
            assert(buf@.subrange(0, 5) =~= inbound_bytes(msg@));
        }
        DecodeStep::Message { msg, used: 5 }
    } else if tag == TAG_I_AM_CAMERA {
        if n < 7 {
            proof {
                assert forall|m: InboundView|
                    inbound_wf(m) && is_prefix_of(#[trigger] inbound_bytes(m), buf@) implies false by {
                    let e = inbound_bytes(m);
                    assert(e[0] == buf@[0]);
                }
            }
            return DecodeStep::Incomplete;
        }
        let road = read_u16(buf, 1);
        let mile = read_u16(buf, 3);
        let limit = read_u16(buf, 5);
        let msg = InboundMessage::IAmCamera { road, mile, limit };
        assert(is_prefix_of(inbound_bytes(msg@), buf@)) by {
            assert(buf@.subrange(0, 7) =~= inbound_bytes(msg@));
        }
        DecodeStep::Message { msg, used: 7 }
    } else if tag == TAG_I_AM_DISPATCHER {
        if n < 2 || n < 2 + 2 * (buf[1] as usize) {
            proof {
                assert forall|m: InboundView|
                    inbound_wf(m) && is_prefix_of(#[trigger] inbound_bytes(m), buf@) implies false by {
                    let e = inbound_bytes(m);
                    assert(e[0] == buf@[0]);
                    if let InboundView::IAmDispatcher { roads } = m {
                        lemma_roads_bytes_len(roads);
                        assert(e[1] == buf@[1]);
                    }
                }
            }
            return DecodeStep::Incomplete;
        }
        let count = buf[1] as usize;
        let mut roads: Vec<u16> = Vec::new();
        let mut i: usize = 0;
        while i < count
            invariant
                i <= count,
                count == buf@[1] as usize,
                2 + 2 * count <= buf@.len(),
                roads@.len() == i,
                roads_bytes(roads@) == buf@.subrange(2, 2 + 2 * i),
            decreases count - i,
        {
            let road = read_u16(buf, 2 + 2 * i);
            proof {
                assert(roads@.push(road).drop_last() =~= roads@);
                assert(buf@.subrange(2, 2 + 2 * (i + 1)) =~= buf@.subrange(2, 2 + 2 * i)
                    + buf@.subrange(2 + 2 * i, 2 + 2 * i + 2));
            }
            roads.push(road);
            i = i + 1;
        }
        let msg = InboundMessage::IAmDispatcher { roads };
        assert(is_prefix_of(inbound_bytes(msg@), buf@)) by {
            lemma_roads_bytes_len(msg@->IAmDispatcher_roads);
            assert(buf@.subrange(0, 2 + 2 * count) =~= inbound_bytes(msg@));
        }
        DecodeStep::Message { msg, used: 2 + 2 * count }
    } else {
        DecodeStep::UnknownTag
    }
}

/// The bytes of a Ticket message.
pub open spec fn ticket_bytes(t: TicketView) -> Seq<u8> {
    seq![TAG_TICKET, t.plate.len() as u8] + t.plate + be16(t.road) + be16(t.mile1) + be32(
        t.timestamp1,
    ) + be16(t.mile2) + be32(t.timestamp2) + be16(t.speed)
}

/// The bytes of an Error message whose text is `text`, cut to the 255 bytes that
/// a one-byte length can announce.
pub open spec fn error_bytes(text: Seq<u8>) -> Seq<u8> {
    let n = if text.len() <= 255 { text.len() } else { 255 };
    seq![TAG_ERROR, n as u8] + text.subrange(0, n as int)
}

fn push_u16(out: &mut Vec<u8>, v: u16)
    ensures
        final(out)@ == old(out)@ + be16(v),
{
    out.push((v / 256) as u8);
    out.push((v % 256) as u8);
    assert(final(out)@ =~= old(out)@ + be16(v));
}

fn push_u32(out: &mut Vec<u8>, v: u32)
    ensures
        final(out)@ == old(out)@ + be32(v),
{
    out.push((v / 0x1000000) as u8);
    out.push(((v / 0x10000) % 256) as u8);
    out.push(((v / 256) % 256) as u8);
    out.push((v % 256) as u8);
    assert(final(out)@ =~= old(out)@ + be32(v));
}

fn push_bytes(out: &mut Vec<u8>, bytes: &[u8])
    ensures
        final(out)@ == old(out)@ + bytes@,
{
    let mut i: usize = 0;
    while i < bytes.len()
        invariant
            i <= bytes@.len(),
            out@ == old(out)@ + bytes@.subrange(0, i as int),
        decreases bytes@.len() - i,
    {
        out.push(bytes[i]);
        i = i + 1;
        assert(out@ =~= old(out)@ + bytes@.subrange(0, i as int));
    }
    assert(bytes@.subrange(0, i as int) =~= bytes@);
}

/// Encodes a Ticket message.
pub fn encode_ticket(t: &Ticket) -> (r: Vec<u8>)
    requires
        t.plate@.len() <= 255,
    ensures
        r@ == ticket_bytes(t@),
{
    let mut out: Vec<u8> = Vec::new();
    out.push(TAG_TICKET);
    out.push(t.plate.len() as u8);
    push_bytes(&mut out, t.plate.as_slice());
    push_u16(&mut out, t.road);
    push_u16(&mut out, t.mile1);
    push_u32(&mut out, t.timestamp1);
    push_u16(&mut out, t.mile2);
    push_u32(&mut out, t.timestamp2);
    push_u16(&mut out, t.speed);
    assert(out@ =~= ticket_bytes(t@));
    out
}

/// Encodes an Error message carrying `text`.
pub fn encode_error(text: &str) -> (r: Vec<u8>)
    ensures
        r@ == error_bytes(text.spec_bytes()),
{
    let bytes = text.as_bytes();
    let n: usize = if bytes.len() <= 255 { bytes.len() } else { 255 };
    let mut out: Vec<u8> = Vec::new();
    out.push(TAG_ERROR);
    out.push(n as u8);
    push_bytes(&mut out, vstd::slice::slice_subrange(bytes, 0, n));
    assert(out@ =~= error_bytes(text.spec_bytes()));
    out
}

/// Encodes a Heartbeat message.
pub fn encode_heartbeat() -> (r: Vec<u8>)
    ensures
        r@ == seq![TAG_HEARTBEAT],
{
    let mut out: Vec<u8> = Vec::new();
    out.push(TAG_HEARTBEAT);
    assert(out@ =~= seq![TAG_HEARTBEAT]);
    out
}

} // verus!
