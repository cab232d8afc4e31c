//! What the multicast sender puts on the wire for a payload: its indexed
//! packets, each in a data packet with the next sequence number.

use crate::chunk::chunks;
use crate::multicast::packet::{packet_feed, decode_packet, lemma_packet_roundtrip, encode_packet, index_packets, Packet, PacketEncoder, PacketView};
use crate::be::{be16, lemma_read_be16, read16};
use crate::multicast::packet::lemma_payload_delivered;
use crate::multicast::receiver::{delivered, lemma_in_order_run, receivable, receive_all, ReceiverView};
use vstd::prelude::*;

verus! {

/// The datagrams of the payload `bytes`, numbered from `sequence` on
/// (wrapping), for packets of at most `max_size` bytes.
pub open spec fn datagrams(bytes: Seq<u8>, max_size: nat, sequence: u16) -> Seq<Seq<u8>> {
    let packets = index_packets(chunks(bytes, (max_size - 2) as nat));
    Seq::new(
        packets.len(),
        |i: int|
            encode_packet(
                PacketView::Bytes { sequence: ((sequence + i) % 0x1_0000) as u16, chunk: packets[i] },
            ),
    )
}

/// Every datagram that the sender makes for a payload is one a receiver takes
/// in, and it decodes to the data packet with its sequence number and its
/// indexed packet of the payload.
pub proof fn lemma_datagram_received(bytes: Seq<u8>, max_size: nat, sequence: u16, i: int)
    requires
        max_size > 2,
        0 <= i < datagrams(bytes, max_size, sequence).len(),
    ensures
        receivable(datagrams(bytes, max_size, sequence)[i]),
        decode_packet(datagrams(bytes, max_size, sequence)[i]) == Ok::<PacketView, ()>(
            PacketView::Bytes {
                sequence: ((sequence + i) % 0x1_0000) as u16,
                chunk: index_packets(chunks(bytes, (max_size - 2) as nat))[i],
            },
        ),
{
    let packets = index_packets(chunks(bytes, (max_size - 2) as nat));
    let p = PacketView::Bytes { sequence: ((sequence + i) % 0x1_0000) as u16, chunk: packets[i] };
    lemma_packet_roundtrip(p);
    assert(datagrams(bytes, max_size, sequence)[i] == encode_packet(p));
}

/// The datagrams `ds`, arriving at the times `times`.
pub open spec fn arrivals_at(ds: Seq<Seq<u8>>, times: Seq<u64>) -> Seq<(Seq<u8>, u64)> {
    Seq::new(ds.len(), |i: int| (ds[i], times[i]))
}

/// Outputs that are all empty give out nothing; one more that gives out a
/// payload gives out just that payload.
proof fn lemma_delivered_single(outs: Seq<Option<Seq<u8>>>, p: Seq<u8>)
    requires
        outs.len() > 0,
        forall|i: int| 0 <= i < outs.len() - 1 ==> #[trigger] outs[i] is None,
        outs.last() == Some(p),
    ensures
        delivered(outs) == seq![p],
    decreases outs.len(),
{
    lemma_delivered_none(outs.drop_last());
    assert(delivered(outs) =~= seq![p]);
}

proof fn lemma_delivered_none(outs: Seq<Option<Seq<u8>>>)
    requires
        forall|i: int| 0 <= i < outs.len() ==> #[trigger] outs[i] is None,
    ensures
        delivered(outs) == Seq::<Seq<u8>>::empty(),
    decreases outs.len(),
{
    if outs.len() > 0 {
        assert forall|i: int| 0 <= i < outs.drop_last().len() implies #[trigger] outs.drop_last()[i] is None by {
            assert(outs.drop_last()[i] == outs[i]);
        }
        lemma_delivered_none(outs.drop_last());
    }
}

/// What is sent is received: a receiver with an empty reorder queue and a
/// decoder holding nothing, which gets the datagrams that the sender makes
/// for a payload, then the first two of the next payload, in order and each
/// at least the holding delay after the one before, gives out exactly that
/// payload.
pub proof fn lemma_sent_payload_received(
    data: Seq<u8>,
    next: Seq<u8>,
    max_size: nat,
    sequence: u16,
    r: ReceiverView,
    times: Seq<u64>,
)
    requires
        max_size > 2,
        data.len() > 0,
        chunks(data, (max_size - 2) as nat).len() <= 0x8000,
        chunks(next, (max_size - 2) as nat).len() >= 2,
        sequence + chunks(data, (max_size - 2) as nat).len() + 1 < 0x1_0000,
        r.queue.held.len() == 0,
        r.queue.delay > 0,
        r.decoder.bytes.len() == 0,
        times.len() == chunks(data, (max_size - 2) as nat).len() + 2,
        forall|i: int| 0 < i < times.len() ==> #[trigger] times[i] >= times[i - 1] + r.queue.delay,
    ensures
        receive_all(r, arrivals_at(sent_then_two(data, next, max_size, sequence), times)).1 == seq![data],
{
    let n = (max_size - 2) as nat;
    let k = chunks(data, n).len() as int;
    let ds = sent_then_two(data, next, max_size, sequence);
    let arr = arrivals_at(ds, times);
    let seqs = Seq::new((k + 2) as nat, |i: int| (sequence + i) as u16);
    let pieces = pieces_then_two(data, next, n);
    assert forall|i: int| 0 <= i < arr.len() implies decode_packet(#[trigger] arr[i].0) == Ok::<PacketView, ()>(
        PacketView::Bytes { sequence: seqs[i], chunk: pieces[i] },
    ) by {
        lemma_sent_then_two_packet(data, next, max_size, sequence, i);
    }
    assert forall|i: int| 0 < i < arr.len() implies #[trigger] seqs[i] > seqs[i - 1] by {}
    assert forall|i: int| 0 < i < arr.len() implies #[trigger] arr[i].1 >= arr[i - 1].1 + r.queue.delay by {
        assert(times[i] >= times[i - 1] + r.queue.delay);
    }
    lemma_in_order_run(r, arr, seqs, pieces);
    lemma_first_of_next(data, next, n, r);
}

/// The datagrams of `data` from `sequence` on, then the first two of `next`.
pub open spec fn sent_then_two(data: Seq<u8>, next: Seq<u8>, max_size: nat, sequence: u16) -> Seq<Seq<u8>> {
    datagrams(data, max_size, sequence) + datagrams(
        next,
        max_size,
        (sequence + chunks(data, (max_size - 2) as nat).len()) as u16,
    ).take(2)
}

/// The indexed packets of `data`, then the first two of `next`.
pub open spec fn pieces_then_two(data: Seq<u8>, next: Seq<u8>, n: nat) -> Seq<Seq<u8>> {
    index_packets(chunks(data, n)) + index_packets(chunks(next, n)).take(2)
}

proof fn lemma_sent_then_two_packet(data: Seq<u8>, next: Seq<u8>, max_size: nat, sequence: u16, i: int)
    requires
        max_size > 2,
        chunks(next, (max_size - 2) as nat).len() >= 2,
        sequence + chunks(data, (max_size - 2) as nat).len() + 1 < 0x1_0000,
        0 <= i < chunks(data, (max_size - 2) as nat).len() + 2,
    ensures
        decode_packet(sent_then_two(data, next, max_size, sequence)[i]) == Ok::<PacketView, ()>(
            PacketView::Bytes {
                sequence: (sequence + i) as u16,
                chunk: pieces_then_two(data, next, (max_size - 2) as nat)[i],
            },
        ),
{
    let k = chunks(data, (max_size - 2) as nat).len() as int;
    let s2 = (sequence + k) as u16;
    if i < k {
        lemma_datagram_received(data, max_size, sequence, i);
    } else {
        lemma_datagram_received(next, max_size, s2, i - k);
    }
}

proof fn lemma_first_of_next(data: Seq<u8>, next: Seq<u8>, n: nat, r: ReceiverView)
    requires
        n > 0,
        data.len() > 0,
        chunks(data, n).len() <= 0x8000,
        chunks(next, n).len() >= 2,
        r.decoder.bytes.len() == 0,
    ensures
        delivered(packet_feed(r.decoder, pieces_then_two(data, next, n).drop_last()).1) == seq![data],
{
    let ps = index_packets(chunks(data, n));
    let cn = chunks(next, n);
    let first = index_packets(cn)[0];
    assert(first == be16(0u16) + cn[0]);
    lemma_read_be16(0u16, cn[0]);
    assert(pieces_then_two(data, next, n).drop_last() =~= ps.push(first));
    lemma_payload_delivered(r.decoder, data, n, first);
    let outs = packet_feed(r.decoder, ps.push(first)).1;
    lemma_delivered_single(outs, data);
}

/// An owned copy of the packets `ps`.
fn copy_packets(ps: &[Vec<u8>]) -> (r: Vec<Vec<u8>>)
    ensures
        r@.map_values(|p: Vec<u8>| p@) == ps@.map_values(|p: Vec<u8>| p@),
{
    let mut r: Vec<Vec<u8>> = Vec::new();
    let mut i: usize = 0;
    while i < ps.len()
        invariant
            i <= ps@.len(),
            r@.len() == i,
            forall|j: int| 0 <= j < i ==> #[trigger] r@[j]@ == ps@[j]@,
        decreases ps@.len() - i,
    {
        let mut p: Vec<u8> = Vec::new();
        crate::chunk::append_bytes(&mut p, ps[i].as_slice());
        r.push(p);
        i = i + 1;
    }
    assert(r@.map_values(|p: Vec<u8>| p@) =~= ps@.map_values(|p: Vec<u8>| p@));
    r
}

/// The multicast sender's logic, apart from its socket: packetizes payloads
/// and numbers the data packets.
pub struct Sender {
    encoder: PacketEncoder,
    sequence: u16,
}

impl Sender {
    /// The largest packet of a payload that the sender makes.
    pub closed spec fn max_size(&self) -> nat {
        self.encoder.max_size()
    }

    /// The sequence number of the next data packet.
    pub closed spec fn sequence(&self) -> u16 {
        self.sequence
    }

    /// A sender for datagrams of at most `mtu` bytes; numbering starts at 0.
    /// Sending a non-empty payload needs an `mtu` of at least 10.
    pub fn new(mtu: usize) -> (r: Sender)
        requires
            mtu >= 7,
        ensures
            r.max_size() == mtu - 7,
            r.sequence() == 0,
    {
        Sender { encoder: PacketEncoder::new(Packet::get_max_size(mtu)), sequence: 0 }
    }

    /// The datagrams that carry `bytes`, in order; an empty payload gives
    /// none. The sequence number moves past them.
    pub fn send(&mut self, bytes: &[u8]) -> (r: Vec<Vec<u8>>)
        requires
            bytes@.len() > 0 ==> old(self).max_size() > 2,
        ensures
            r@.map_values(|d: Vec<u8>| d@) == datagrams(bytes@, old(self).max_size(), old(self).sequence()),
            final(self).max_size() == old(self).max_size(),
            final(self).sequence() == ((old(self).sequence() + r@.len()) % 0x1_0000) as u16,
    {
        let ghost want = datagrams(bytes@, self.max_size(), self.sequence);
        let ghost seq0 = self.sequence;
        let mut out: Vec<Vec<u8>> = Vec::new();
        if bytes.len() == 0 {
            proof {
                assert(bytes@ =~= Seq::<u8>::empty());
                assert(chunks(bytes@, (self.max_size() - 2) as nat) =~= Seq::<Seq<u8>>::empty());
                assert(want =~= Seq::<Seq<u8>>::empty());
                assert(out@.map_values(|d: Vec<u8>| d@) =~= want);
            }
            return out;
        }
        let packets = copy_packets(self.encoder.encode(bytes));
        let ghost ps = packets@.map_values(|p: Vec<u8>| p@);
        let mut i: usize = 0;
        while i < packets.len()
            invariant
                i <= packets@.len(),
                self.encoder.max_size() == old(self).max_size(),
                ps == packets@.map_values(|p: Vec<u8>| p@),
                ps == index_packets(chunks(bytes@, (old(self).max_size() - 2) as nat)),
                want == datagrams(bytes@, old(self).max_size(), seq0),
                self.sequence == ((seq0 + i) % 0x1_0000) as u16,
                out@.len() == i,
                forall|j: int| 0 <= j < i ==> #[trigger] out@[j]@ == want[j],
            decreases packets@.len() - i,
        {
            let chunk = packets[i].clone();
            let datagram = Packet::Bytes { sequence: self.sequence, chunk }.into_bytes();
            assert(datagram@ == want[i as int]);
            out.push(datagram);
            self.sequence = if self.sequence == u16::MAX {
                0
            } else {
                self.sequence + 1
            };
            i = i + 1;
        }
        assert(out@.map_values(|d: Vec<u8>| d@) =~= want);
        out
    }
}

} // verus!
