//! Packets of the linear stream transport, guarded by a CRC-32 fingerprint,
//! and the encoder that cuts a byte stream into payload packets.

use crate::be::{
    be16, be32, be64, get_u16, get_u32, get_u64, lemma_read_be16, lemma_read_be32,
    lemma_read_be64, put_u16, put_u32, put_u64, read16, read32, read64,
};
use crate::checksum::{fingerprint, fingerprint_of};
use crate::chunk::append_bytes;
use core::ops::Range;
use vstd::prelude::*;

verus! {

pub enum Packet {
    Ping { timestamp: u64 },
    Pong { timestamp: u64 },
    Nack { range: Range<u16> },
    Payload { group: u16, sequence: u16, data: Vec<u8> },
}

/// What a packet holds, as plain values.
pub enum PacketView {
    Ping { timestamp: u64 },
    Pong { timestamp: u64 },
    Nack { start: u16, end: u16 },
    Payload { group: u16, sequence: u16, data: Seq<u8> },
}

impl View for Packet {
    type V = PacketView;

    open spec fn view(&self) -> PacketView {
        match self {
            Packet::Ping { timestamp } => PacketView::Ping { timestamp: *timestamp },
            Packet::Pong { timestamp } => PacketView::Pong { timestamp: *timestamp },
            Packet::Nack { range } => PacketView::Nack { start: range.start, end: range.end },
            Packet::Payload { group, sequence, data } => PacketView::Payload {
                group: *group,
                sequence: *sequence,
                data: data@,
            },
        }
    }
}

/// The bytes after the fingerprint: a kind byte, then the fields.
pub open spec fn packet_body(p: PacketView) -> Seq<u8> {
    match p {
        PacketView::Ping { timestamp } => seq![0u8] + be64(timestamp),
        PacketView::Pong { timestamp } => seq![1u8] + be64(timestamp),
        PacketView::Nack { start, end } => seq![2u8] + be16(start) + be16(end),
        PacketView::Payload { group, sequence, data } => seq![3u8] + be16(group) + be16(sequence)
            + data,
    }
}

/// The wire form of a packet: the fingerprint of the body, then the body.
pub open spec fn encode_packet(p: PacketView) -> Seq<u8> {
    be32(fingerprint_of(packet_body(p))) + packet_body(p)
}

/// The packet that the bytes `s` carry, or `Err` when the fingerprint does not
/// match or the kind is unknown.
pub open spec fn decode_packet(s: Seq<u8>) -> Result<PacketView, ()> {
    if read32(s) != fingerprint_of(s.skip(4)) {
        Err(())
    } else if s[4] == 0 {
        Ok(PacketView::Ping { timestamp: read64(s.skip(5)) })
    } else if s[4] == 1 {
        Ok(PacketView::Pong { timestamp: read64(s.skip(5)) })
    } else if s[4] == 2 {
        Ok(PacketView::Nack { start: read16(s.skip(5)), end: read16(s.skip(7)) })
    } else if s[4] == 3 {
        Ok(
            PacketView::Payload {
                group: read16(s.skip(5)),
                sequence: read16(s.skip(7)),
                data: s.skip(9),
            },
        )
    } else {
        Err(())
    }
}

/// The inputs that decoding reads within bounds.
pub open spec fn decodable(s: Seq<u8>) -> bool {
    &&& s.len() >= 4
    &&& read32(s) == fingerprint_of(s.skip(4)) ==> {
        &&& s.len() >= 5
        &&& (s[4] == 0 || s[4] == 1) ==> s.len() >= 13
        &&& (s[4] == 2 || s[4] == 3) ==> s.len() >= 9
    }
}

impl Packet {
    /// The wire form of the packet.
    pub fn into_bytes(self) -> (r: Vec<u8>)
        ensures
            r@ == encode_packet(self@),
    {
        let ghost v = self@;
        let mut body: Vec<u8> = Vec::new();
        match self {
            Packet::Ping { timestamp } => {
                body.push(0u8);
                put_u64(&mut body, timestamp);
            },
            Packet::Pong { timestamp } => {
                body.push(1u8);
                put_u64(&mut body, timestamp);
            },
            Packet::Nack { range } => {
                body.push(2u8);
                put_u16(&mut body, range.start);
                put_u16(&mut body, range.end);
            },
            Packet::Payload { group, sequence, data } => {
                body.push(3u8);
                put_u16(&mut body, group);
                put_u16(&mut body, sequence);
                append_bytes(&mut body, data.as_slice());
            },
        }
        assert(body@ =~= packet_body(v));
        let crc = fingerprint(body.as_slice());
        let mut out: Vec<u8> = Vec::new();
        put_u32(&mut out, crc);
        append_bytes(&mut out, body.as_slice());
        out
    }

    /// Reads a packet from its wire form.
    pub fn try_from(bytes: &[u8]) -> (r: Result<Packet, ()>)
        requires
            decodable(bytes@),
        ensures
            r matches Ok(p) ==> decode_packet(bytes@) == Ok::<PacketView, ()>(p@),
            r is Err <==> decode_packet(bytes@) is Err,
    {
        let crc = get_u32(bytes, 0);
        let body = vstd::slice::slice_subrange(bytes, 4, bytes.len());
        assert(body@ =~= bytes@.skip(4));
        if crc != fingerprint(body) {
            return Err(());
        }
        let kind = bytes[4];
        if kind == 0 {
            Ok(Packet::Ping { timestamp: get_u64(bytes, 5) })
        } else if kind == 1 {
            Ok(Packet::Pong { timestamp: get_u64(bytes, 5) })
        } else if kind == 2 {
            let start = get_u16(bytes, 5);
            let end = get_u16(bytes, 7);
            Ok(Packet::Nack { range: Range { start, end } })
        } else if kind == 3 {
            let group = get_u16(bytes, 5);
            let sequence = get_u16(bytes, 7);
            let mut data: Vec<u8> = Vec::new();
            append_bytes(&mut data, vstd::slice::slice_subrange(bytes, 9, bytes.len()));
            assert(data@ =~= bytes@.skip(9));
            Ok(Packet::Payload { group, sequence, data })
        } else {
            Err(())
        }
    }

    /// Reads a packet from any input: `None` for an input too short for what
    /// its header announces, otherwise what `try_from` gives.
    pub fn try_decode(bytes: &[u8]) -> (r: Option<Result<Packet, ()>>)
        ensures
            r is None <==> !decodable(bytes@),
            r matches Some(Ok(p)) ==> decode_packet(bytes@) == Ok::<PacketView, ()>(p@),
            r matches Some(Err(_)) ==> decode_packet(bytes@) is Err,
    {
        if bytes.len() < 4 {
            return None;
        }
        let crc = get_u32(bytes, 0);
        let body = vstd::slice::slice_subrange(bytes, 4, bytes.len());
        assert(body@ =~= bytes@.skip(4));
        if crc == fingerprint(body) {
            if bytes.len() < 5 {
                return None;
            }
            let kind = bytes[4];
            if (kind == 0 || kind == 1) && bytes.len() < 13 {
                return None;
            }
            if (kind == 2 || kind == 3) && bytes.len() < 9 {
                return None;
            }
        }
        Some(Packet::try_from(bytes))
    }
}

/// Decoding the wire form of a packet gives the packet back.
pub proof fn lemma_packet_roundtrip(p: PacketView)
    ensures
        decodable(encode_packet(p)),
        decode_packet(encode_packet(p)) == Ok::<PacketView, ()>(p),
{
    let body = packet_body(p);
    let s = encode_packet(p);
    lemma_read_be32(fingerprint_of(body), body);
    assert(s.skip(4) =~= body);
    match p {
        PacketView::Ping { timestamp } => {
            assert(s.skip(5) =~= be64(timestamp) + seq![]);
            lemma_read_be64(timestamp, seq![]);
        },
        PacketView::Pong { timestamp } => {
            assert(s.skip(5) =~= be64(timestamp) + seq![]);
            lemma_read_be64(timestamp, seq![]);
        },
        PacketView::Nack { start, end } => {
            assert(s.skip(5) =~= be16(start) + be16(end));
            assert(s.skip(7) =~= be16(end) + seq![]);
            lemma_read_be16(start, be16(end));
            lemma_read_be16(end, seq![]);
        },
        PacketView::Payload { group, sequence, data } => {
            assert(s.skip(5) =~= be16(group) + (be16(sequence) + data));
            assert(s.skip(7) =~= be16(sequence) + data);
            assert(s.skip(9) =~= data);
            lemma_read_be16(group, be16(sequence) + data);
            lemma_read_be16(sequence, data);
        },
    }
}

/// Encoder state: the bytes not yet sent, the payload size, and the sequence
/// number of the next payload.
pub struct LinearEncoderView {
    pub buffer: Seq<u8>,
    pub max_packet_size: nat,
    pub sequence: u16,
}

/// Cuts a byte stream into payload packets of a fixed size.
pub struct LinearEncoder {
    max_packet_size: usize,
    buffer: Vec<u8>,
    sequence: u16,
}

impl View for LinearEncoder {
    type V = LinearEncoderView;

    closed spec fn view(&self) -> LinearEncoderView {
        LinearEncoderView {
            buffer: self.buffer@,
            max_packet_size: self.max_packet_size as nat,
            sequence: self.sequence,
        }
    }
}

impl LinearEncoder {
    /// An encoder for datagrams of `max_packet_size` bytes; 9 of them go to
    /// the payload header.
    pub fn new(max_packet_size: usize) -> (r: LinearEncoder)
        requires
            max_packet_size >= 9,
        ensures
            r@ == (LinearEncoderView {
                buffer: Seq::<u8>::empty(),
                max_packet_size: (max_packet_size - 9) as nat,
                sequence: 0,
            }),
    {
        LinearEncoder { buffer: Vec::new(), max_packet_size: max_packet_size - 9, sequence: 0 }
    }

    /// Appends bytes to the stream.
    pub fn push(&mut self, bytes: &[u8])
        ensures
            final(self)@ == (LinearEncoderView { buffer: old(self)@.buffer + bytes@, ..old(self)@ }),
    {
        append_bytes(&mut self.buffer, bytes);
    }

    /// The next full payload packet, when a full payload is waiting: it takes
    /// the front of the stream and the next sequence number.
    pub fn pop(&mut self) -> (r: Option<Packet>)
        ensures
            old(self)@.buffer.len() >= old(self)@.max_packet_size ==> {
                let n = old(self)@.max_packet_size as int;
                &&& r matches Some(p) && p@ == (PacketView::Payload {
                    group: 0,
                    sequence: old(self)@.sequence,
                    data: old(self)@.buffer.take(n),
                })
                &&& final(self)@ == (LinearEncoderView {
                    buffer: old(self)@.buffer.skip(n),
                    max_packet_size: old(self)@.max_packet_size,
                    sequence: old(self)@.sequence.wrapping_add(1),
                })
            },
            old(self)@.buffer.len() < old(self)@.max_packet_size ==> r is None && final(self)@
                == old(self)@,
    {
        if self.buffer.len() >= self.max_packet_size {
            let sequence = self.sequence;
            self.sequence = self.sequence.wrapping_add(1);
            let rest = self.buffer.split_off(self.max_packet_size);
            let mut data: Vec<u8> = Vec::new();
            std::mem::swap(&mut data, &mut self.buffer);
            self.buffer = rest;
            Some(Packet::Payload { data, sequence, group: 0 })
        } else {
            None
        }
    }
}

/// The encoder neither drops nor reorders bytes: a payload it gives out,
/// followed by what it still holds, is what it held before.
pub proof fn lemma_pop_keeps_stream(v: LinearEncoderView)
    requires
        v.buffer.len() >= v.max_packet_size,
    ensures
        v.buffer.take(v.max_packet_size as int) + v.buffer.skip(v.max_packet_size as int) == v.buffer,
{
    assert(v.buffer.take(v.max_packet_size as int) + v.buffer.skip(v.max_packet_size as int) =~= v.buffer);
}

/// Decoder of the linear stream; it holds no state.
pub struct LinearDecoder {}

impl LinearDecoder {
    pub fn new() -> (r: LinearDecoder) {
        LinearDecoder {  }
    }
}

} // verus!
