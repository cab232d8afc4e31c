//! What the multicast receiver does with each datagram: echoes of its pings
//! give the round-trip time, data packets go through the reorder queue, and
//! what the queue releases is reassembled into payloads.

use crate::multicast::nack::{insert_held, leading_expired, loss_range_of, pushed, updated, Dequeue, DequeueView, HeldView};
use crate::multicast::packet::{decodable, decode_packet, packet_feed, Packet, PacketDecoder, PacketDecoderView, PacketView};
use vstd::prelude::*;

verus! {

/// How long, in milliseconds, the receiver holds a packet before releasing it.
pub const RECEIVE_DELAY: usize = 50;

/// The payloads among the outputs of a run of decoding steps, in order.
pub open spec fn delivered(outs: Seq<Option<Seq<u8>>>) -> Seq<Seq<u8>>
    decreases outs.len(),
{
    if outs.len() == 0 {
        seq![]
    } else {
        let rest = delivered(outs.drop_last());
        match outs.last() {
            Some(p) => rest.push(p),
            None => rest,
        }
    }
}

/// Every held packet is long enough to carry its two-byte index.
pub open spec fn indexed(held: Seq<HeldView>) -> bool {
    forall|i: int| 0 <= i < held.len() ==> (#[trigger] held[i]).1.len() >= 2
}

/// The receiver's state: its reorder queue and its payload decoder.
pub struct ReceiverView {
    pub queue: DequeueView,
    pub decoder: PacketDecoderView,
}

/// The receiver after the datagram `s` arrives at time `now` (milliseconds on
/// its clock), and the payloads it gives out.
///
/// The echo of a ping sent at `timestamp` sets the round-trip time to the
/// time since (wrapping around for an echo from the future). A data packet is held; then every packet held
/// for the delay is released, smallest sequence number first, and fed to the
/// decoder. Anything else changes nothing.
pub open spec fn receive(r: ReceiverView, s: Seq<u8>, now: u64) -> (ReceiverView, Seq<Seq<u8>>) {
    match decode_packet(s) {
        Ok(PacketView::Pong { timestamp }) => (
            ReceiverView { queue: updated(r.queue, now, timestamp), ..r },
            seq![],
        ),
        Ok(PacketView::Bytes { sequence, chunk }) => {
            let q = pushed(r.queue, sequence as u64, chunk, now);
            let n = leading_expired(q.held, now, q.delay);
            let released = q.held.take(n as int).map_values(|h: HeldView| h.1);
            let (d, outs) = packet_feed(r.decoder, released);
            (
                ReceiverView { queue: DequeueView { held: q.held.skip(n as int), ..q }, decoder: d },
                delivered(outs),
            )
        },
        _ => (r, seq![]),
    }
}

/// The datagrams a receiver takes in: decoding reads them within bounds, and a
/// data packet's chunk carries at least its index.
pub open spec fn receivable(s: Seq<u8>) -> bool {
    &&& decodable(s)
    &&& decode_packet(s) matches Ok(PacketView::Bytes { chunk, .. }) ==> chunk.len() >= 2
}

/// Inserting a long enough packet into long enough packets keeps them so.
proof fn lemma_insert_indexed(s: Seq<HeldView>, e: HeldView)
    requires
        indexed(s),
        e.1.len() >= 2,
    ensures
        indexed(insert_held(s, e)),
    decreases s.len(),
{
    let t = insert_held(s, e);
    if s.len() == 0 {
    } else if e.0 < s[0].0 {
        assert forall|i: int| 0 <= i < t.len() implies (#[trigger] t[i]).1.len() >= 2 by {
            if i > 0 {
                assert(t[i] == s[i - 1]);
            }
        }
    } else if e.0 == s[0].0 {
        assert forall|i: int| 0 <= i < t.len() implies (#[trigger] t[i]).1.len() >= 2 by {
            if i > 0 {
                assert(t[i] == s[i]);
            }
        }
    } else {
        let rest = s.drop_first();
        assert forall|i: int| 0 <= i < rest.len() implies (#[trigger] rest[i]).1.len() >= 2 by {
            assert(rest[i] == s[i + 1]);
        }
        lemma_insert_indexed(rest, e);
        assert forall|i: int| 0 <= i < t.len() implies (#[trigger] t[i]).1.len() >= 2 by {
            if i > 0 {
                assert(t[i] == insert_held(rest, e)[i - 1]);
            }
        }
    }
}

/// The expired run at the front is no longer than the queue.
proof fn lemma_expired_len(s: Seq<HeldView>, now: u64, delay: nat)
    ensures
        leading_expired(s, now, delay) <= s.len(),
    decreases s.len(),
{
    if s.len() > 0 {
        lemma_expired_len(s.drop_first(), now, delay);
    }
}

/// Dropping `i` expired packets from the front leaves the rest of the expired
/// run at the front.
proof fn lemma_expired_skip(s: Seq<HeldView>, now: u64, delay: nat, i: int)
    requires
        0 <= i <= leading_expired(s, now, delay),
    ensures
        leading_expired(s.skip(i), now, delay) == leading_expired(s, now, delay) - i,
    decreases i,
{
    lemma_expired_len(s, now, delay);
    if i == 0 {
        assert(s.skip(0) =~= s);
    } else {
        assert(s.len() > 0);
        lemma_expired_skip(s.drop_first(), now, delay, i - 1);
        assert(s.drop_first().skip(i - 1) =~= s.skip(i));
    }
}

/// Receiving the datagrams of `arrivals` in order, each at its time: the
/// final state and every payload given out, in order.
pub open spec fn receive_all(r: ReceiverView, arrivals: Seq<(Seq<u8>, u64)>) -> (ReceiverView, Seq<Seq<u8>>)
    decreases arrivals.len(),
{
    if arrivals.len() == 0 {
        (r, seq![])
    } else {
        let (r1, out1) = receive_all(r, arrivals.drop_last());
        let (r2, out2) = receive(r1, arrivals.last().0, arrivals.last().1);
        (r2, out1 + out2)
    }
}

/// Feeding one more packet adds what that step gives out.
proof fn lemma_delivered_push(outs: Seq<Option<Seq<u8>>>, o: Option<Seq<u8>>)
    ensures
        delivered(outs.push(o)) == delivered(outs) + delivered(seq![o]),
{
    assert(outs.push(o).drop_last() =~= outs);
    assert(seq![o].drop_last() =~= Seq::<Option<Seq<u8>>>::empty());
    assert(delivered(Seq::<Option<Seq<u8>>>::empty()) == Seq::<Seq<u8>>::empty());
    match o {
        Some(p) => {
            assert(delivered(seq![o]) =~= seq![p]);
            assert(delivered(outs.push(o)) =~= delivered(outs) + seq![p]);
        },
        None => {
            assert(delivered(seq![o]) =~= Seq::<Seq<u8>>::empty());
            assert(delivered(outs.push(o)) =~= delivered(outs) + Seq::<Seq<u8>>::empty());
        },
    }
}

/// Data packets that arrive in increasing sequence order, each at least the
/// holding delay after the one before, at a receiver whose reorder queue is
/// empty: every packet but the last is released when the next one arrives,
/// so the decoder is fed all of them but the last, in order, and the last is
/// still held.
pub proof fn lemma_in_order_run(
    r: ReceiverView,
    arrivals: Seq<(Seq<u8>, u64)>,
    seqs: Seq<u16>,
    pieces: Seq<Seq<u8>>,
)
    requires
        arrivals.len() > 0,
        seqs.len() == arrivals.len(),
        pieces.len() == arrivals.len(),
        r.queue.held.len() == 0,
        r.queue.delay > 0,
        forall|i: int|
            0 <= i < arrivals.len() ==> decode_packet(#[trigger] arrivals[i].0) == Ok::<PacketView, ()>(
                PacketView::Bytes { sequence: seqs[i], chunk: pieces[i] },
            ),
        forall|i: int| 0 < i < arrivals.len() ==> #[trigger] seqs[i] > seqs[i - 1],
        forall|i: int|
            0 < i < arrivals.len() ==> #[trigger] arrivals[i].1 >= arrivals[i - 1].1 + r.queue.delay,
    ensures
        ({
            let (r2, out) = receive_all(r, arrivals);
            &&& r2.queue == (DequeueView {
                held: seq![(seqs.last() as u64, pieces.last(), arrivals.last().1)],
                ..r.queue
            })
            &&& r2.decoder == packet_feed(r.decoder, pieces.drop_last()).0
            &&& out == delivered(packet_feed(r.decoder, pieces.drop_last()).1)
        }),
    decreases arrivals.len(),
{
    let k = arrivals.len() - 1;
    let e = (seqs[k] as u64, pieces[k], arrivals[k].1);
    assert(decode_packet(arrivals[k].0) == Ok::<PacketView, ()>(
        PacketView::Bytes { sequence: seqs[k], chunk: pieces[k] },
    ));
    if k == 0 {
        let (r0, out0) = receive_all(r, arrivals.drop_last());
        assert(arrivals.drop_last().len() == 0);
        assert(r0 == r && out0 == Seq::<Seq<u8>>::empty());
        assert(!crate::multicast::nack::holds(r.queue.held, seqs[k] as u64));
        assert(insert_held(r.queue.held, e) == seq![e]);
        let q = pushed(r.queue, seqs[k] as u64, pieces[k], arrivals[k].1);
        assert(q.held == seq![e]);
        assert(q.held.drop_first() =~= Seq::<HeldView>::empty());
        assert(leading_expired(q.held, arrivals[k].1, q.delay) == 0);
        assert(q.held.take(0).map_values(|h: HeldView| h.1) =~= Seq::<Seq<u8>>::empty());
        assert(q.held.skip(0) =~= q.held);
        assert(pieces.drop_last() =~= Seq::<Seq<u8>>::empty());
        assert(delivered(Seq::<Option<Seq<u8>>>::empty()) == Seq::<Seq<u8>>::empty());
        let (r2, out) = receive_all(r, arrivals);
        assert(out =~= Seq::<Seq<u8>>::empty() + Seq::<Seq<u8>>::empty());
    } else {
        let prefix = arrivals.drop_last();
        let sp = seqs.drop_last();
        let pp = pieces.drop_last();
        assert forall|i: int| 0 <= i < prefix.len() implies decode_packet(#[trigger] prefix[i].0)
            == Ok::<PacketView, ()>(PacketView::Bytes { sequence: sp[i], chunk: pp[i] }) by {
            assert(prefix[i] == arrivals[i]);
        }
        assert forall|i: int| 0 < i < prefix.len() implies #[trigger] sp[i] > sp[i - 1] by {
            assert(sp[i] == seqs[i] && sp[i - 1] == seqs[i - 1]);
        }
        assert forall|i: int| 0 < i < prefix.len() implies #[trigger] prefix[i].1 >= prefix[i - 1].1
            + r.queue.delay by {
            assert(prefix[i] == arrivals[i] && prefix[i - 1] == arrivals[i - 1]);
        }
        lemma_in_order_run(r, prefix, sp, pp);
        let (r1, out1) = receive_all(r, prefix);
        let prev = (sp.last() as u64, pp.last(), prefix.last().1);
        assert(r1.queue.held == seq![prev]);
        assert(seqs[k] > seqs[k - 1]);
        assert(prev.0 == seqs[k - 1] as u64);
        assert(prefix.last().1 == arrivals[k - 1].1);
        assert(!crate::multicast::nack::holds(r1.queue.held, seqs[k] as u64));
        let s1 = r1.queue.held;
        assert(s1.drop_first() =~= Seq::<HeldView>::empty());
        assert(insert_held(s1.drop_first(), e) == seq![e]);
        assert(insert_held(s1, e) == seq![prev] + seq![e]);
        let q = pushed(r1.queue, seqs[k] as u64, pieces[k], arrivals[k].1);
        let now = arrivals[k].1;
        assert(q.held =~= seq![prev, e]);
        assert(q.held.drop_first() =~= seq![e]);
        assert(q.held.drop_first().drop_first() =~= Seq::<HeldView>::empty());
        assert(leading_expired(q.held.drop_first(), now, q.delay) == 0);
        assert(leading_expired(q.held, now, q.delay) == 1);
        let released = q.held.take(1).map_values(|h: HeldView| h.1);
        assert(released =~= seq![pp.last()]);
        assert(q.held.skip(1) =~= seq![e]);
        let d1 = packet_feed(r.decoder, pp.drop_last());
        assert(pp.drop_last().push(pp.last()) =~= pp);
        assert(pieces.drop_last() =~= pp);
        let one = packet_feed(r1.decoder, seq![pp.last()]);
        assert(seq![pp.last()].drop_last() =~= Seq::<Seq<u8>>::empty());
        assert(packet_feed(r1.decoder, Seq::<Seq<u8>>::empty()) == (r1.decoder, Seq::<Option<Seq<u8>>>::empty()));
        assert(seq![pp.last()].last() == pp.last());
        let step = crate::multicast::packet::packet_decode_step(r1.decoder, pp.last());
        assert(one == (step.0, Seq::<Option<Seq<u8>>>::empty().push(step.1)));
        assert(Seq::<Option<Seq<u8>>>::empty().push(step.1) =~= seq![step.1]);
        assert(packet_feed(r.decoder, pp) == (step.0, d1.1.push(step.1)));
        lemma_delivered_push(d1.1, step.1);
        let (r2, out) = receive_all(r, arrivals);
        assert(arrivals.last() == arrivals[k]);
        assert(out == out1 + delivered(seq![step.1]));
    }
}

/// The multicast receiver's logic, apart from its sockets and threads.
pub struct Receiver {
    queue: Dequeue,
    decoder: PacketDecoder,
}

impl View for Receiver {
    type V = ReceiverView;

    closed spec fn view(&self) -> ReceiverView {
        ReceiverView { queue: self.queue@, decoder: self.decoder@ }
    }
}

impl Receiver {
    /// Every held packet can be fed to the decoder.
    pub closed spec fn wf(&self) -> bool {
        indexed(self.queue@.held)
    }

    /// A receiver that holds packets for [`RECEIVE_DELAY`] milliseconds.
    pub fn new() -> (r: Receiver)
        ensures
            r.wf(),
            r@.queue == (DequeueView {
                held: Seq::<HeldView>::empty(),
                rtt: (RECEIVE_DELAY / 2) as u64,
                delay: RECEIVE_DELAY as nat,
            }),
            r@.decoder == (PacketDecoderView { bytes: Seq::<u8>::empty(), interrupt: false, index: -1i16 }),
    {
        Receiver { queue: Dequeue::new(RECEIVE_DELAY), decoder: PacketDecoder::default() }
    }

    /// Milliseconds on the receiver's clock, the timestamp of its pings.
    pub fn get_time(&self) -> u64 {
        self.queue.get_time()
    }

    /// The measured round-trip time, in milliseconds.
    pub fn rtt(&self) -> (r: u64)
        ensures
            r == self@.queue.rtt,
    {
        self.queue.rtt()
    }

    /// The range of held sequence numbers to ask the sender for again, if any.
    pub fn loss_range(&self) -> (r: Option<core::ops::Range<u64>>)
        ensures
            match r {
                Some(range) => loss_range_of(self@.queue.held.map_values(|h: HeldView| h.0)) == Some(
                    (range.start, range.end),
                ),
                None => loss_range_of(self@.queue.held.map_values(|h: HeldView| h.0)) is None,
            },
    {
        self.queue.loss_range()
    }

    /// Takes in any datagram, arrived at time `now`: `None`, with the receiver
    /// unchanged, for one it cannot take in (too short for what its header
    /// announces, or a data packet too short for its index); otherwise the
    /// payloads that `receive_at` gives out.
    pub fn try_receive_at(&mut self, datagram: &[u8], now: u64) -> (r: Option<Vec<Vec<u8>>>)
        requires
            old(self).wf(),
        ensures
            final(self).wf(),
            r is None <==> !receivable(datagram@),
            r is None ==> final(self)@ == old(self)@,
            r matches Some(out) ==> receive(old(self)@, datagram@, now) == (
                final(self)@,
                out@.map_values(|p: Vec<u8>| p@),
            ),
    {
        match Packet::try_decode(datagram) {
            None => None,
            Some(Ok(Packet::Bytes { chunk, .. })) => {
                if chunk.len() < 2 {
                    None
                } else {
                    Some(self.receive_at(datagram, now))
                }
            },
            Some(_) => Some(self.receive_at(datagram, now)),
        }
    }

    /// Takes in the datagram `datagram`, arrived at time `now`, and gives out
    /// the payloads that it completes.
    pub fn receive_at(&mut self, datagram: &[u8], now: u64) -> (r: Vec<Vec<u8>>)
        requires
            old(self).wf(),
            receivable(datagram@),
        ensures
            final(self).wf(),
            receive(old(self)@, datagram@, now) == (final(self)@, r@.map_values(|p: Vec<u8>| p@)),
    {
        let mut out: Vec<Vec<u8>> = Vec::new();
        match Packet::try_from(datagram) {
            Ok(Packet::Pong { timestamp }) => {
                self.queue.update_at(now, timestamp);
                assert(out@.map_values(|p: Vec<u8>| p@) =~= Seq::<Seq<u8>>::empty());
            },
            Ok(Packet::Bytes { sequence, chunk }) => {
                let ghost r0 = self@;
                let ghost data = chunk@;
                proof {
                    if !crate::multicast::nack::holds(r0.queue.held, sequence as u64) {
                        lemma_insert_indexed(r0.queue.held, (sequence as u64, data, now));
                    }
                }
                self.queue.push_at(sequence as u64, chunk, now);
                let ghost q = self.queue@;
                let ghost n = leading_expired(q.held, now, q.delay);
                let ghost released = q.held.take(n as int).map_values(|h: HeldView| h.1);
                let ghost mut i: int = 0;
                proof {
                    lemma_expired_len(q.held, now, q.delay);
                    assert(q.held.skip(0) =~= q.held);
                    assert(released.take(0) =~= Seq::<Seq<u8>>::empty());
                }
                loop
                    invariant
                        q == pushed(r0.queue, sequence as u64, data, now),
                        indexed(q.held),
                        n == leading_expired(q.held, now, q.delay),
                        released == q.held.take(n as int).map_values(|h: HeldView| h.1),
                        0 <= i <= n,
                        n <= q.held.len(),
                        self.queue@ == (DequeueView { held: q.held.skip(i), ..q }),
                        (self.decoder@, out@.map_values(|p: Vec<u8>| p@)) == ({
                            let (d, outs) = packet_feed(r0.decoder, released.take(i));
                            (d, delivered(outs))
                        }),
                    ensures
                        i == n,
                        self.queue@ == (DequeueView { held: q.held.skip(n as int), ..q }),
                        (self.decoder@, out@.map_values(|p: Vec<u8>| p@)) == ({
                            let (d, outs) = packet_feed(r0.decoder, released);
                            (d, delivered(outs))
                        }),
                    decreases self.queue@.held.len(),
                {
                    proof {
                        lemma_expired_skip(q.held, now, q.delay, i);
                    }
                    let popped = self.queue.pop_at(now);
                    match popped {
                        Some(bytes) => {
                            proof {
                                assert(i < n);
                                assert(q.held.skip(i)[0] == q.held[i]);
                                assert(q.held.skip(i).drop_first() =~= q.held.skip(i + 1));
                                assert(released[i] == bytes@);
                                assert(released.take(i + 1).drop_last() =~= released.take(i));
                                assert(released.take(i + 1).last() == bytes@);
                            }
                            let decoded = self.decoder.decode(bytes.as_slice());
                            match decoded {
                                Some(payload) => {
                                    out.push(payload);
                                },
                                None => {},
                            }
                            proof {
                                i = i + 1;
                                let (d, outs) = packet_feed(r0.decoder, released.take(i));
                                let (d0, outs0) = packet_feed(r0.decoder, released.take(i - 1));
                                assert(outs.drop_last() =~= outs0);
                                assert(out@.map_values(|p: Vec<u8>| p@) =~= delivered(outs));
                            }
                        },
                        None => {
                            proof {
                                assert(i == n);
                                assert(released.take(i) =~= released);
                            }
                            break;
                        },
                    }
                }
            },
            _ => {
                assert(out@.map_values(|p: Vec<u8>| p@) =~= Seq::<Seq<u8>>::empty());
            },
        }
        out
    }
}

} // verus!
