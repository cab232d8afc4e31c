//! Control and data packets of the multicast transport, each guarded by a
//! CRC-32 fingerprint, and the splitting of a payload into indexed packets.

use crate::be::{be16, be32, be64, get_u16, get_u32, get_u64, put_u16, put_u32, put_u64, read16, read32, read64, lemma_read_be16, lemma_read_be32, lemma_read_be64};
use crate::checksum::{fingerprint, fingerprint_of};
use crate::chunk::{append_bytes, chunks, concat, lemma_chunks_concat, lemma_concat_append, split_chunks};
use core::ops::Range;
use vstd::prelude::*;

verus! {

/// A packet of the multicast transport.
pub enum Packet {
    Ping { timestamp: u64 },
    Pong { timestamp: u64 },
    Nack { range: Range<u16> },
    Bytes { sequence: u16, chunk: Vec<u8> },
}

/// What a packet holds, as plain values.
pub enum PacketView {
    Ping { timestamp: u64 },
    Pong { timestamp: u64 },
    Nack { start: u16, end: u16 },
    Bytes { sequence: u16, chunk: Seq<u8> },
}

impl View for Packet {
    type V = PacketView;

    open spec fn view(&self) -> PacketView {
        match self {
            Packet::Ping { timestamp } => PacketView::Ping { timestamp: *timestamp },
            Packet::Pong { timestamp } => PacketView::Pong { timestamp: *timestamp },
            Packet::Nack { range } => PacketView::Nack { start: range.start, end: range.end },
            Packet::Bytes { sequence, chunk } => PacketView::Bytes {
                sequence: *sequence,
                chunk: chunk@,
            },
        }
    }
}

/// The bytes after the fingerprint: a kind byte, then the fields.
pub open spec fn packet_body(p: PacketView) -> Seq<u8> {
    match p {
        PacketView::Ping { timestamp } => seq![0u8] + be64(timestamp),
        PacketView::Pong { timestamp } => seq![1u8] + be64(timestamp),
        PacketView::Nack { start, end } => seq![2u8] + be16(start) + be16(end),
        PacketView::Bytes { sequence, chunk } => seq![3u8] + be16(sequence) + chunk,
    }
}

/// The wire form of a packet: the fingerprint of the body, then the body.
pub open spec fn encode_packet(p: PacketView) -> Seq<u8> {
    be32(fingerprint_of(packet_body(p))) + packet_body(p)
}

/// The packet that the bytes `s` carry, or `Err` when the fingerprint does not
/// match or the kind is unknown.
pub open spec fn decode_packet(s: Seq<u8>) -> Result<PacketView, ()> {
    if read32(s) != fingerprint_of(s.skip(4)) {
        Err(())
    } else if s[4] == 0 {
        Ok(PacketView::Ping { timestamp: read64(s.skip(5)) })
    } else if s[4] == 1 {
        Ok(PacketView::Pong { timestamp: read64(s.skip(5)) })
    } else if s[4] == 2 {
        Ok(PacketView::Nack { start: read16(s.skip(5)), end: read16(s.skip(7)) })
    } else if s[4] == 3 {
        Ok(PacketView::Bytes { sequence: read16(s.skip(5)), chunk: s.skip(7) })
    } else {
        Err(())
    }
}

/// The inputs that decoding reads within bounds: the fingerprint is there,
/// and when it matches, so are the kind byte and the fields of that kind.
pub open spec fn decodable(s: Seq<u8>) -> bool {
    &&& s.len() >= 4
    &&& read32(s) == fingerprint_of(s.skip(4)) ==> {
        &&& s.len() >= 5
        &&& (s[4] == 0 || s[4] == 1) ==> s.len() >= 13
        &&& s[4] == 2 ==> s.len() >= 9
        &&& s[4] == 3 ==> s.len() >= 7
    }
}

impl Packet {
    /// The largest chunk that fits in a datagram of `size` bytes.
    pub fn get_max_size(size: usize) -> (r: usize)
        requires
            size >= 7,
        ensures
            r == size - 7,
    {
        size - 7
    }

    /// The wire form of the packet.
    pub fn into_bytes(self) -> (r: Vec<u8>)
        ensures
            r@ == encode_packet(self@),
    {
        let ghost v = self@;
        let mut body: Vec<u8> = Vec::new();
        match self {
            Packet::Ping { timestamp } => {
                body.push(0u8);
                put_u64(&mut body, timestamp);
            },
            Packet::Pong { timestamp } => {
                body.push(1u8);
                put_u64(&mut body, timestamp);
            },
            Packet::Nack { range } => {
                body.push(2u8);
                put_u16(&mut body, range.start);
                put_u16(&mut body, range.end);
            },
            Packet::Bytes { sequence, chunk } => {
                body.push(3u8);
                put_u16(&mut body, sequence);
                append_bytes(&mut body, chunk.as_slice());
            },
        }
        assert(body@ =~= packet_body(v));
        let crc = fingerprint(body.as_slice());
        let mut out: Vec<u8> = Vec::new();
        put_u32(&mut out, crc);
        append_bytes(&mut out, body.as_slice());
        out
    }

    /// Reads a packet from its wire form.
    pub fn try_from(bytes: &[u8]) -> (r: Result<Packet, ()>)
        requires
            decodable(bytes@),
        ensures
            r matches Ok(p) ==> decode_packet(bytes@) == Ok::<PacketView, ()>(p@),
            r is Err <==> decode_packet(bytes@) is Err,
    {
        let crc = get_u32(bytes, 0);
        let body = vstd::slice::slice_subrange(bytes, 4, bytes.len());
        assert(body@ =~= bytes@.skip(4));
        if crc != fingerprint(body) {
            return Err(());
        }
        let kind = bytes[4];
        assert(bytes@.skip(4).skip(1) =~= bytes@.skip(5));
        if kind == 0 {
            Ok(Packet::Ping { timestamp: get_u64(bytes, 5) })
        } else if kind == 1 {
            Ok(Packet::Pong { timestamp: get_u64(bytes, 5) })
        } else if kind == 2 {
            let start = get_u16(bytes, 5);
            let end = get_u16(bytes, 7);
            Ok(Packet::Nack { range: Range { start, end } })
        } else if kind == 3 {
            let sequence = get_u16(bytes, 5);
            let mut chunk: Vec<u8> = Vec::new();
            append_bytes(&mut chunk, vstd::slice::slice_subrange(bytes, 7, bytes.len()));
            assert(chunk@ =~= bytes@.skip(7));
            Ok(Packet::Bytes { sequence, chunk })
        } else {
            Err(())
        }
    }

    /// Reads a packet from any input: `None` for an input too short for what
    /// its header announces, otherwise what `try_from` gives.
    pub fn try_decode(bytes: &[u8]) -> (r: Option<Result<Packet, ()>>)
        ensures
            r is None <==> !decodable(bytes@),
            r matches Some(Ok(p)) ==> decode_packet(bytes@) == Ok::<PacketView, ()>(p@),
            r matches Some(Err(_)) ==> decode_packet(bytes@) is Err,
    {
        if bytes.len() < 4 {
            return None;
        }
        let crc = get_u32(bytes, 0);
        let body = vstd::slice::slice_subrange(bytes, 4, bytes.len());
        assert(body@ =~= bytes@.skip(4));
        if crc == fingerprint(body) {
            if bytes.len() < 5 {
                return None;
            }
            let kind = bytes[4];
            if (kind == 0 || kind == 1) && bytes.len() < 13 {
                return None;
            }
            if kind == 2 && bytes.len() < 9 {
                return None;
            }
            if kind == 3 && bytes.len() < 7 {
                return None;
            }
        }
        Some(Packet::try_from(bytes))
    }
}

/// Decoding the wire form of a packet gives the packet back.
pub proof fn lemma_packet_roundtrip(p: PacketView)
    ensures
        decodable(encode_packet(p)),
        decode_packet(encode_packet(p)) == Ok::<PacketView, ()>(p),
{
    let body = packet_body(p);
    let s = encode_packet(p);
    lemma_read_be32(fingerprint_of(body), body);
    assert(s.skip(4) =~= body);
    match p {
        PacketView::Ping { timestamp } => {
            assert(s.skip(5) =~= be64(timestamp) + seq![]);
            lemma_read_be64(timestamp, seq![]);
        },
        PacketView::Pong { timestamp } => {
            assert(s.skip(5) =~= be64(timestamp) + seq![]);
            lemma_read_be64(timestamp, seq![]);
        },
        PacketView::Nack { start, end } => {
            assert(s.skip(5) =~= be16(start) + be16(end));
            assert(s.skip(7) =~= be16(end) + seq![]);
            lemma_read_be16(start, be16(end));
            lemma_read_be16(end, seq![]);
        },
        PacketView::Bytes { sequence, chunk } => {
            assert(s.skip(5) =~= be16(sequence) + chunk);
            assert(s.skip(7) =~= chunk);
            lemma_read_be16(sequence, chunk);
        },
    }
}

/// The packets of a payload: each piece, after its index within the payload.
pub open spec fn index_packets(pieces: Seq<Seq<u8>>) -> Seq<Seq<u8>> {
    Seq::new(pieces.len(), |i: int| be16((i % 0x1_0000) as u16) + pieces[i])
}

/// Packetizes payloads: each piece of a payload carries its index, so that the
/// receiver can tell a payload's first packet and notice a missing one.
pub struct PacketEncoder {
    packets: Vec<Vec<u8>>,
    max_size: usize,
}

impl PacketEncoder {
    /// An encoder for packets of at most `max_size` bytes.
    pub fn new(max_size: usize) -> (r: PacketEncoder)
        ensures
            r.max_size() == max_size,
    {
        PacketEncoder { packets: Vec::new(), max_size }
    }

    /// The largest packet the encoder gives.
    pub closed spec fn max_size(&self) -> nat {
        self.max_size as nat
    }

    /// The packets of `bytes`: pieces of at most `max_size - 2` bytes, each
    /// after its two-byte index. An empty payload gives no packet.
    pub fn encode(&mut self, bytes: &[u8]) -> (r: &[Vec<u8>])
        requires
            old(self).max_size() > 2,
        ensures
            r@.map_values(|p: Vec<u8>| p@) == index_packets(chunks(bytes@, (old(self).max_size() - 2) as nat)),
            final(self).max_size() == old(self).max_size(),
    {
        let n = self.max_size - 2;
        let pieces = split_chunks(bytes, n);
        let ghost cs = chunks(bytes@, n as nat);
        let ghost want = index_packets(cs);
        let mut packets: Vec<Vec<u8>> = Vec::new();
        let mut i: usize = 0;
        while i < pieces.len()
            invariant
                i <= pieces@.len(),
                pieces@.len() == cs.len(),
                cs == chunks(bytes@, n as nat),
                want == index_packets(cs),
                forall|j: int| 0 <= j < pieces@.len() ==> #[trigger] pieces@[j]@ == cs[j],
                packets@.len() == i,
                forall|j: int| 0 <= j < i ==> #[trigger] packets@[j]@ == want[j],
            decreases pieces@.len() - i,
        {
            let mut packet: Vec<u8> = Vec::new();
            put_u16(&mut packet, (i % 0x1_0000) as u16);
            append_bytes(&mut packet, pieces[i].as_slice());
            assert(packet@ =~= want[i as int]);
            packets.push(packet);
            i = i + 1;
        }
        self.packets = packets;
        assert(self.packets@.map_values(|p: Vec<u8>| p@) =~= want);
        self.packets.as_slice()
    }
}

/// Decoder state: the bytes gathered of the current payload, whether packets
/// are being dropped until the next payload starts, and the last index seen.
pub struct PacketDecoderView {
    pub bytes: Seq<u8>,
    pub interrupt: bool,
    pub index: i16,
}

/// One decoding step on a packet `s` (a two-byte index, then a piece).
///
/// While dropping, a packet of index 0 ends the dropping. Otherwise a packet
/// whose positive index does not follow the last one starts the dropping:
/// the damaged payload's gathered bytes are thrown away and nothing is given
/// out (the last index is kept). When not dropping, a packet of
/// index 0 gives out what was gathered (if anything) and starts a new payload;
/// the piece is gathered.
pub open spec fn packet_decode_step(d: PacketDecoderView, s: Seq<u8>) -> (PacketDecoderView, Option<Seq<u8>>) {
    let index = read16(s) as i16;
    if !d.interrupt && index > 0 && d.index as int + 1 != index as int {
        (PacketDecoderView { bytes: Seq::<u8>::empty(), interrupt: true, ..d }, None)
    } else {
        let interrupt = d.interrupt && index != 0;
        if interrupt {
            (PacketDecoderView { interrupt, index, ..d }, None)
        } else {
            let out = if index == 0 && d.bytes.len() > 0 {
                Some(d.bytes)
            } else {
                None
            };
            let kept = if index == 0 && d.bytes.len() > 0 {
                Seq::<u8>::empty()
            } else {
                d.bytes
            };
            (PacketDecoderView { bytes: kept + s.skip(2), interrupt, index }, out)
        }
    }
}

/// Decode the packets received from the network and separate out the different
/// types of data.
pub struct PacketDecoder {
    bytes: Vec<u8>,
    interrupt: bool,
    index: i16,
}

impl View for PacketDecoder {
    type V = PacketDecoderView;

    closed spec fn view(&self) -> PacketDecoderView {
        PacketDecoderView { bytes: self.bytes@, interrupt: self.interrupt, index: self.index }
    }
}

impl Default for PacketDecoder {
    fn default() -> (r: PacketDecoder)
        ensures
            r@ == (PacketDecoderView { bytes: Seq::<u8>::empty(), interrupt: false, index: -1i16 }),
    {
        PacketDecoder { bytes: Vec::new(), interrupt: false, index: -1 }
    }
}

impl PacketDecoder {
    /// Takes in one packet; gives out a payload once the first packet of the
    /// next payload arrives.
    pub fn decode(&mut self, bytes: &[u8]) -> (r: Option<Vec<u8>>)
        requires
            bytes@.len() >= 2,
        ensures
            packet_decode_step(old(self)@, bytes@) == (
                final(self)@,
                match r {
                    Some(b) => Some(b@),
                    None => None,
                },
            ),
    {
        let index = get_u16(bytes, 0) as i16;
        if self.interrupt {
            if index == 0 {
                self.interrupt = false;
            }
        } else {
            if index > 0 && self.index as i32 + 1 != index as i32 {
                // A packet of this payload was lost: the payload is ignored.
                self.interrupt = true;
                self.bytes = Vec::new();
                return None;
            }
        }
        let mut results: Option<Vec<u8>> = None;
        if !self.interrupt {
            if index == 0 && self.bytes.len() > 0 {
                let mut gathered: Vec<u8> = Vec::new();
                std::mem::swap(&mut gathered, &mut self.bytes);
                results = Some(gathered);
            }
            append_bytes(&mut self.bytes, vstd::slice::slice_subrange(bytes, 2, bytes.len()));
            assert(bytes@.subrange(2, bytes@.len() as int) =~= bytes@.skip(2));
        }
        self.index = index;
        assert(Seq::<u8>::empty() + bytes@.skip(2) =~= bytes@.skip(2));
        results
    }
}

/// Feeding the packets `ps` to a decoder in state `d`, in order: the final
/// state and what each step gave out.
pub open spec fn packet_feed(d: PacketDecoderView, ps: Seq<Seq<u8>>) -> (PacketDecoderView, Seq<Option<Seq<u8>>>)
    decreases ps.len(),
{
    if ps.len() == 0 {
        (d, seq![])
    } else {
        let (d1, outs) = packet_feed(d, ps.drop_last());
        let (d2, o) = packet_decode_step(d1, ps.last());
        (d2, outs.push(o))
    }
}

proof fn lemma_packet_feed_prefix(d: PacketDecoderView, data: Seq<u8>, n: nat, j: int)
    requires
        n > 0,
        1 <= j <= chunks(data, n).len() <= 0x8000,
    ensures
        packet_feed(d, index_packets(chunks(data, n)).take(j)).0 == (PacketDecoderView {
            bytes: concat(chunks(data, n).take(j)),
            interrupt: false,
            index: (j - 1) as i16,
        }),
        packet_feed(d, index_packets(chunks(data, n)).take(j)).1.len() == j,
        forall|i: int| 1 <= i < j ==> #[trigger] packet_feed(d, index_packets(chunks(data, n)).take(j)).1[i] is None,
        d.bytes.len() == 0 ==> packet_feed(d, index_packets(chunks(data, n)).take(j)).1[0] is None,
    decreases j,
{
    let cs = chunks(data, n);
    let ps = index_packets(cs);
    let fs = ps.take(j);
    assert(fs.drop_last() =~= ps.take(j - 1));
    assert(fs.last() == ps[j - 1]);
    assert(ps[j - 1] == be16(((j - 1) % 0x1_0000) as u16) + cs[j - 1]);
    lemma_read_be16(((j - 1) % 0x1_0000) as u16, cs[j - 1]);
    assert(read16(fs.last()) as i16 == (j - 1) as i16);
    assert(fs.last().skip(2) =~= cs[j - 1]);
    let before = packet_feed(d, fs.drop_last());
    let step = packet_decode_step(before.0, fs.last());
    assert(packet_feed(d, fs) == (step.0, before.1.push(step.1)));
    if j == 1 {
        assert(ps.take(0) =~= Seq::<Seq<u8>>::empty());
        assert(before == (d, Seq::<Option<Seq<u8>>>::empty()));
        assert(cs.take(1) =~= seq![cs[0]]);
        assert(cs.take(1).drop_first() =~= Seq::<Seq<u8>>::empty());
        assert(concat(cs.take(1).drop_first()) == Seq::<u8>::empty());
        assert(concat(cs.take(1)) =~= cs[0]);
        assert(Seq::<u8>::empty() + cs[0] =~= cs[0]);
    } else {
        lemma_packet_feed_prefix(d, data, n, j - 1);
        lemma_concat_append(cs.take(j - 1), seq![cs[j - 1]]);
        assert(cs.take(j - 1) + seq![cs[j - 1]] =~= cs.take(j));
        assert(seq![cs[j - 1]].drop_first() =~= Seq::<Seq<u8>>::empty());
        assert(concat(seq![cs[j - 1]].drop_first()) == Seq::<u8>::empty());
        assert(concat(seq![cs[j - 1]]) =~= cs[j - 1]);
        assert forall|i: int| 1 <= i < j implies #[trigger] packet_feed(d, fs).1[i] is None by {
            if i < j - 1 {
                assert(packet_feed(d, fs).1[i] == before.1[i]);
            }
        }
    }
}

/// A payload whose packets all arrive, in order, is given out whole when the
/// first packet of the next payload arrives, whatever state the decoder was
/// in before; none of its own packets but the first gives anything out.
pub proof fn lemma_payload_delivered(d: PacketDecoderView, data: Seq<u8>, n: nat, next: Seq<u8>)
    requires
        n > 0,
        data.len() > 0,
        chunks(data, n).len() <= 0x8000,
        next.len() >= 2,
        read16(next) == 0,
    ensures
        ({
            let outs = packet_feed(d, index_packets(chunks(data, n)).push(next)).1;
            &&& outs.len() == chunks(data, n).len() + 1
            &&& outs.last() == Some(data)
            &&& forall|i: int| 1 <= i < chunks(data, n).len() ==> #[trigger] outs[i] is None
            &&& d.bytes.len() == 0 ==> outs[0] is None
        }),
{
    let cs = chunks(data, n);
    let ps = index_packets(cs);
    lemma_chunks_concat(data, n);
    let k = cs.len() as int;
    lemma_packet_feed_prefix(d, data, n, k);
    assert(ps.take(k) =~= ps);
    assert(cs.take(k) =~= cs);
    let all = ps.push(next);
    assert(all.drop_last() =~= ps);
    assert(read16(next) as i16 == 0);
}

/// Feeding `a` then `b` is feeding `a + b`.
proof fn lemma_feed_concat(d: PacketDecoderView, a: Seq<Seq<u8>>, b: Seq<Seq<u8>>)
    ensures
        packet_feed(d, a + b) == (
            packet_feed(packet_feed(d, a).0, b).0,
            packet_feed(d, a).1 + packet_feed(packet_feed(d, a).0, b).1,
        ),
    decreases b.len(),
{
    if b.len() == 0 {
        assert(a + b =~= a);
        assert(packet_feed(d, a).1 + Seq::<Option<Seq<u8>>>::empty() =~= packet_feed(d, a).1);
    } else {
        lemma_feed_concat(d, a, b.drop_last());
        assert((a + b).drop_last() =~= a + b.drop_last());
        assert((a + b).last() == b.last());
        let mid = packet_feed(d, a);
        let rest = packet_feed(mid.0, b.drop_last());
        let step = packet_decode_step(rest.0, b.last());
        assert(mid.1 + rest.1.push(step.1) =~= (mid.1 + rest.1).push(step.1));
    }
}

/// While dropping, packets that do not start a payload give nothing out and
/// gather nothing.
proof fn lemma_feed_dropping(d: PacketDecoderView, ps: Seq<Seq<u8>>)
    requires
        d.interrupt,
        d.bytes.len() == 0,
        forall|i: int| 0 <= i < ps.len() ==> read16(#[trigger] ps[i]) != 0,
    ensures
        packet_feed(d, ps).0.interrupt,
        packet_feed(d, ps).0.bytes.len() == 0,
        packet_feed(d, ps).1.len() == ps.len(),
        forall|i: int| 0 <= i < ps.len() ==> #[trigger] packet_feed(d, ps).1[i] is None,
    decreases ps.len(),
{
    if ps.len() > 0 {
        let p = ps.drop_last();
        assert forall|i: int| 0 <= i < p.len() implies read16(#[trigger] p[i]) != 0 by {
            assert(p[i] == ps[i]);
        }
        lemma_feed_dropping(d, p);
        assert(ps.last() == ps[ps.len() - 1]);
        let v = read16(ps.last());
        assert((v as i16) != 0i16) by (bit_vector)
            requires
                v != 0u16,
        ;
        let before = packet_feed(d, p);
        assert forall|i: int| 0 <= i < ps.len() implies #[trigger] packet_feed(d, ps).1[i] is None by {
            if i < p.len() {
                assert(packet_feed(d, ps).1[i] == before.1[i]);
            }
        }
    }
}

/// The index that the `i`-th packet of a payload carries.
proof fn lemma_packet_index(cs: Seq<Seq<u8>>, i: int)
    requires
        0 <= i < cs.len() <= 0x8000,
    ensures
        index_packets(cs)[i].len() >= 2,
        read16(index_packets(cs)[i]) == i as u16,
        read16(index_packets(cs)[i]) as i16 == i as i16,
        i > 0 ==> (read16(index_packets(cs)[i]) as i16) > 0,
        index_packets(cs)[i].skip(2) == cs[i],
{
    lemma_read_be16((i % 0x1_0000) as u16, cs[i]);
    assert(index_packets(cs)[i].skip(2) =~= cs[i]);
}

/// A payload that loses a packet which is followed by another of its
/// packets is never given out: the gap makes the decoder drop what it
/// gathered, and the first packet of the next payload then gives nothing
/// out. No packet after the payload's first gives anything out, and the
/// decoder ends up holding only the next payload's piece.
pub proof fn lemma_lost_packet(d: PacketDecoderView, data: Seq<u8>, n: nat, j: int, next: Seq<u8>)
    requires
        n > 0,
        data.len() > 0,
        chunks(data, n).len() <= 0x8000,
        1 <= j,
        j + 1 < chunks(data, n).len(),
        next.len() >= 2,
        read16(next) == 0,
    ensures
        ({
            let fed = packet_feed(d, index_packets(chunks(data, n)).remove(j).push(next));
            &&& fed.1.len() == chunks(data, n).len()
            &&& forall|i: int| 1 <= i < fed.1.len() ==> #[trigger] fed.1[i] is None
            &&& fed.0.bytes == next.skip(2)
            &&& !fed.0.interrupt
        }),
{
    let cs = chunks(data, n);
    let k = cs.len() as int;
    let ps = index_packets(cs);
    let a = ps.take(j);
    let q = ps[j + 1];
    let r = ps.skip(j + 2);
    let tail = seq![q] + r.push(next);
    assert(ps.remove(j).push(next) =~= a + tail);
    lemma_feed_concat(d, a, tail);
    lemma_packet_feed_prefix(d, data, n, j);
    let s1 = packet_feed(d, a).0;
    assert(s1.index == (j - 1) as i16 && !s1.interrupt);
    lemma_packet_index(cs, j + 1);
    assert((j - 1) as i16 as int + 1 != (j + 1) as i16 as int);
    lemma_feed_concat(s1, seq![q], r.push(next));
    assert(seq![q].drop_last() =~= Seq::<Seq<u8>>::empty());
    assert(packet_feed(s1, Seq::<Seq<u8>>::empty()) == (s1, Seq::<Option<Seq<u8>>>::empty()));
    let st = packet_decode_step(s1, q);
    assert(seq![q].last() == q);
    assert(Seq::<Option<Seq<u8>>>::empty().push(st.1) =~= seq![st.1]);
    assert(packet_feed(s1, seq![q]) == (st.0, seq![st.1]));
    assert(st.1 is None && st.0.interrupt && st.0.bytes.len() == 0);
    let s2 = st.0;
    lemma_feed_concat(s2, r, seq![next]);
    assert(r.push(next) =~= r + seq![next]);
    assert forall|i: int| 0 <= i < r.len() implies read16(#[trigger] r[i]) != 0 by {
        assert(r[i] == ps[i + j + 2]);
        lemma_packet_index(cs, i + j + 2);
    }
    lemma_feed_dropping(s2, r);
    let s3 = packet_feed(s2, r).0;
    let last = packet_decode_step(s3, next);
    assert(seq![next].drop_last() =~= Seq::<Seq<u8>>::empty());
    assert(seq![next].last() == next);
    assert(packet_feed(s3, Seq::<Seq<u8>>::empty()) == (s3, Seq::<Option<Seq<u8>>>::empty()));
    assert(Seq::<Option<Seq<u8>>>::empty().push(last.1) =~= seq![last.1]);
    assert(packet_feed(s3, seq![next]) == (last.0, seq![last.1]));
    assert(last.1 is None);
    assert(last.0.bytes =~= next.skip(2));
    let fed = packet_feed(d, ps.remove(j).push(next));
    let outs_a = packet_feed(d, a).1;
    let outs_r = packet_feed(s2, r).1;
    assert(fed.1 =~= outs_a + (seq![st.1] + (outs_r + seq![last.1])));
    assert forall|i: int| 1 <= i < fed.1.len() implies #[trigger] fed.1[i] is None by {
        if i < j {
            assert(fed.1[i] == outs_a[i]);
        } else if i == j {
            assert(fed.1[i] == st.1);
        } else if i < j + 1 + r.len() {
            assert(fed.1[i] == outs_r[i - j - 1]);
        } else {
            assert(fed.1[i] == last.1);
        }
    }
}

} // verus!
