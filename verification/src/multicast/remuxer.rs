//! Reordering of sequenced packets with a fixed holding delay.

use crate::be::{get_u16, read16};
use crate::chunk::append_bytes;
use crate::clock::{age, instant_now, millis_since, waited};
use std::time::Instant;
use vstd::prelude::*;

verus! {

/// A packet waiting to be released: its sequence number, its payload and the
/// time (milliseconds on the remuxer's clock) it arrived.
pub type PendingView = (u16, Seq<u8>, u64);

struct Pending {
    sequence: u16,
    payload: Vec<u8>,
    arrived: u64,
}

impl View for Pending {
    type V = PendingView;

    closed spec fn view(&self) -> PendingView {
        (self.sequence, self.payload@, self.arrived)
    }
}

/// Sequence numbers strictly increase along `s`.
pub open spec fn sorted_by_sequence(s: Seq<PendingView>) -> bool {
    forall|i: int, j: int| 0 <= i < j < s.len() ==> s[i].0 < s[j].0
}

/// `s` with `e` put in sequence order; an entry with the same sequence
/// number is replaced.
pub open spec fn insert_pending(s: Seq<PendingView>, e: PendingView) -> Seq<PendingView>
    decreases s.len(),
{
    if s.len() == 0 {
        seq![e]
    } else if e.0 < s[0].0 {
        seq![e] + s
    } else if e.0 == s[0].0 {
        seq![e] + s.drop_first()
    } else {
        seq![s[0]] + insert_pending(s.drop_first(), e)
    }
}

/// An entry has waited at least `timeout` milliseconds at time `now`.
pub open spec fn timed_out(e: PendingView, now: u64, timeout: nat) -> bool {
    age(now, e.2) >= timeout
}

/// How many entries at the front of `s` have timed out.
pub open spec fn leading_timed_out(s: Seq<PendingView>, now: u64, timeout: nat) -> nat
    decreases s.len(),
{
    if s.len() == 0 {
        0
    } else if timed_out(s[0], now, timeout) {
        1 + leading_timed_out(s.drop_first(), now, timeout)
    } else {
        0
    }
}

/// The state of a remuxer: the waiting packets in sequence order, the holding
/// delay, and the sequence number last released.
pub struct RemuxerView {
    pub pending: Seq<PendingView>,
    pub timeout: nat,
    pub seq: u16,
}

/// One step: the packet in `buf` (a two-byte sequence number, then the
/// payload) joins the waiting packets at time `now`; then the timed-out
/// packets at the front leave, in sequence order. Gives the new state and the
/// payloads that left.
pub open spec fn remux_step(r: RemuxerView, buf: Seq<u8>, now: u64) -> (RemuxerView, Seq<Seq<u8>>) {
    let inserted = insert_pending(r.pending, (read16(buf), buf.skip(2), now));
    let k = leading_timed_out(inserted, now, r.timeout);
    let released = inserted.take(k as int);
    (
        RemuxerView {
            pending: inserted.skip(k as int),
            timeout: r.timeout,
            seq: if k > 0 {
                released.last().0
            } else {
                r.seq
            },
        },
        released.map_values(|e: PendingView| e.1),
    )
}

fn insert_sorted(packets: &mut Vec<Pending>, entry: Pending)
    requires
        sorted_by_sequence(old(packets)@.map_values(|p: Pending| p@)),
    ensures
        final(packets)@.map_values(|p: Pending| p@) == insert_pending(
            old(packets)@.map_values(|p: Pending| p@),
            entry@,
        ),
        sorted_by_sequence(final(packets)@.map_values(|p: Pending| p@)),
{
    let ghost s = packets@.map_values(|p: Pending| p@);
    let ghost e = entry@;
    let sequence = entry.sequence;
    assert(s.skip(0) =~= s);
    assert(s.take(0) + insert_pending(s, e) =~= insert_pending(s, e));
    let mut i: usize = 0;
    while i < packets.len() && packets[i].sequence < sequence
        invariant
            i <= packets@.len(),
            s == packets@.map_values(|p: Pending| p@),
            sorted_by_sequence(s),
            e.0 == sequence,
            forall|j: int| 0 <= j < i ==> s[j].0 < sequence,
            insert_pending(s, e) == s.take(i as int) + insert_pending(s.skip(i as int), e),
        decreases packets@.len() - i,
    {
        proof {
            let t = s.skip(i as int);
            assert(t[0] == s[i as int]);
            assert(t.drop_first() =~= s.skip(i + 1));
            assert(insert_pending(t, e) == seq![t[0]] + insert_pending(t.drop_first(), e));
            assert(s.take(i + 1) =~= s.take(i as int) + seq![s[i as int]]);
        }
        i = i + 1;
    }
    let ghost t = s.skip(i as int);
    if i < packets.len() && packets[i].sequence == sequence {
        packets.remove(i);
        packets.insert(i, entry);
        proof {
            assert(t[0] == s[i as int]);
            assert(t.drop_first() =~= s.skip(i + 1));
        }
        assert(packets@.map_values(|p: Pending| p@) =~= s.take(i as int) + seq![e] + s.skip(
            i + 1,
        ));
    } else {
        packets.insert(i, entry);
        proof {
            if i < s.len() {
                assert(t[0] == s[i as int]);
                assert(e.0 < t[0].0);
            } else {
                assert(t =~= Seq::<PendingView>::empty());
            }
        }
        assert(packets@.map_values(|p: Pending| p@) =~= s.take(i as int) + seq![e] + s.skip(
            i as int,
        ));
    }
    let ghost inserted = packets@.map_values(|p: Pending| p@);
    assert(sorted_by_sequence(inserted)) by {
        assert forall|a: int, b: int| 0 <= a < b < inserted.len() implies inserted[a].0
            < inserted[b].0 by {
            if a < i && b < i {
                assert(inserted[a] == s[a] && inserted[b] == s[b]);
            }
        }
    }
}

fn count_timed_out(packets: &Vec<Pending>, now: u64, timeout: usize) -> (k: usize)
    ensures
        k == leading_timed_out(packets@.map_values(|p: Pending| p@), now, timeout as nat),
        k <= packets@.len(),
{
    let ghost s = packets@.map_values(|p: Pending| p@);
    assert(s.skip(0) =~= s);
    let mut k: usize = 0;
    while k < packets.len() && waited(now, packets[k].arrived) as u128 >= timeout as u128
        invariant
            k <= packets@.len(),
            s == packets@.map_values(|p: Pending| p@),
            leading_timed_out(s, now, timeout as nat) == k + leading_timed_out(
                s.skip(k as int),
                now,
                timeout as nat,
            ),
        decreases packets@.len() - k,
    {
        proof {
            let t = s.skip(k as int);
            assert(t[0] == s[k as int]);
            assert(t.drop_first() =~= s.skip(k + 1));
        }
        k = k + 1;
    }
    proof {
        let t = s.skip(k as int);
        if k < s.len() {
            assert(t[0] == s[k as int]);
        }
    }
    k
}

fn into_payloads(released: Vec<Pending>) -> (r: Vec<Vec<u8>>)
    ensures
        r@.map_values(|v: Vec<u8>| v@) == released@.map_values(|p: Pending| p@).map_values(
            |e: PendingView| e.1,
        ),
{
    let ghost all = released@.map_values(|p: Pending| p@);
    let total = released.len();
    assert(all.len() == total);
    let mut released = released;
    let mut out: Vec<Vec<u8>> = Vec::new();
    let mut n: usize = 0;
    while released.len() > 0
        invariant
            n + released@.len() == all.len(),
            all.len() <= usize::MAX,
            released@.map_values(|p: Pending| p@) == all.skip(n as int),
            out@.map_values(|v: Vec<u8>| v@) == all.take(n as int).map_values(|e: PendingView| e.1),
        decreases released@.len(),
    {
        let ghost before = released@;
        let p = released.remove(0);
        proof {
            assert(before.map_values(|p: Pending| p@)[0] == all[n as int]);
            assert(released@ =~= before.drop_first());
        }
        assert(p.payload@ == all[n as int].1);
        let ghost old_out = out@;
        assert(all.take(n as int).map_values(|e: PendingView| e.1).len() == n);
        assert(old_out.map_values(|v: Vec<u8>| v@).len() == old_out.len());
        out.push(p.payload);
        assert(all.take(n + 1) =~= all.take(n as int).push(all[n as int]));
        assert(old_out.len() == n);
        assert(out@.map_values(|v: Vec<u8>| v@) =~= old_out.map_values(|v: Vec<u8>| v@).push(
            all[n as int].1,
        ));
        assert(all.take(n + 1).map_values(|e: PendingView| e.1) =~= all.take(n as int).map_values(
            |e: PendingView| e.1,
        ).push(all[n as int].1));
        n = n + 1;
        assert forall|j: int| 0 <= j < released@.len() implies released@.map_values(
            |p: Pending| p@,
        )[j] == all.skip(n as int)[j] && #[trigger] released@[j] == before[j + 1] by {
            assert(released@[j] == before[j + 1]);
            assert(before.map_values(|p: Pending| p@)[j + 1] == all.skip(n - 1)[j + 1]);
        }
        assert(released@.map_values(|p: Pending| p@) =~= all.skip(n as int));
        assert(out@.map_values(|v: Vec<u8>| v@) =~= all.take(n as int).map_values(
            |e: PendingView| e.1,
        ));
    }
    assert(all.take(n as int) =~= all);
    out
}

/// Unmixed packets.
///
/// Reordering of packets is included internally, but introduces some fixed
/// delays.
pub struct Remuxer {
    packets: Vec<Pending>,
    dequeue: Vec<Vec<u8>>,
    timeout: usize,
    seq: u16,
    clock: Instant,
}

impl View for Remuxer {
    type V = RemuxerView;

    closed spec fn view(&self) -> RemuxerView {
        RemuxerView {
            pending: self.packets@.map_values(|p: Pending| p@),
            timeout: self.timeout as nat,
            seq: self.seq,
        }
    }
}

impl Remuxer {
    #[verifier::type_invariant]
    closed spec fn inv(&self) -> bool {
        sorted_by_sequence(self.packets@.map_values(|p: Pending| p@))
    }

    /// Creates a remuxer and specifies a packet transmission delay.
    pub fn new(timeout: usize) -> (r: Remuxer)
        ensures
            r@.pending == Seq::<PendingView>::empty(),
            r@.timeout == timeout,
            r@.seq == 0,
            sorted_by_sequence(r@.pending),
    {
        let r = Remuxer {
            packets: Vec::new(),
            dequeue: Vec::new(),
            timeout,
            seq: 0,
            clock: instant_now(),
        };
        assert(r.packets@.map_values(|p: Pending| p@) =~= Seq::<PendingView>::empty());
        r
    }

    /// Processes incoming packets and returns all packets that have been
    /// sorted.
    ///
    /// Note that this function reorders received packets. The time of the
    /// step is read from the remuxer's clock.
    pub fn remux(&mut self, buf: &[u8]) -> (r: &[Vec<u8>])
        requires
            buf@.len() >= 2,
        ensures
            sorted_by_sequence(old(self)@.pending),
            sorted_by_sequence(final(self)@.pending),
            exists|now: u64|
                #![trigger remux_step(old(self)@, buf@, now)]
                remux_step(old(self)@, buf@, now) == (
                    final(self)@,
                    r@.map_values(|v: Vec<u8>| v@),
                ) && releases_in_order(old(self)@, buf@, now),
    {
        let now = millis_since(&self.clock);
        self.remux_at(buf, now)
    }

    /// The step of `remux` at time `now` (milliseconds on the remuxer's
    /// clock).
    pub fn remux_at(&mut self, buf: &[u8], now: u64) -> (r: &[Vec<u8>])
        requires
            buf@.len() >= 2,
        ensures
            remux_step(old(self)@, buf@, now) == (final(self)@, r@.map_values(|v: Vec<u8>| v@)),
            sorted_by_sequence(old(self)@.pending),
            sorted_by_sequence(final(self)@.pending),
            releases_in_order(old(self)@, buf@, now),
    {
        proof {
            use_type_invariant(&*self);
            lemma_remux_step_order(self@, buf@, now);
        }
        let ghost old_view = self@;
        let sequence = get_u16(buf, 0);
        let mut payload: Vec<u8> = Vec::new();
        append_bytes(&mut payload, vstd::slice::slice_subrange(buf, 2, buf.len()));
        let entry = Pending { sequence, payload, arrived: now };
        assert(buf@.subrange(2, buf@.len() as int) =~= buf@.skip(2));
        let ghost e = entry@;

        let mut packets: Vec<Pending> = Vec::new();
        std::mem::swap(&mut packets, &mut self.packets);
        assert(packets@.map_values(|p: Pending| p@) == old_view.pending);
        insert_sorted(&mut packets, entry);
        let ghost inserted = packets@.map_values(|p: Pending| p@);
        let k = count_timed_out(&packets, now, self.timeout);
        let rest = packets.split_off(k);
        let released = packets;
        assert(released@.map_values(|p: Pending| p@) =~= inserted.take(k as int));
        assert(rest@.map_values(|p: Pending| p@) =~= inserted.skip(k as int));
        assert(sorted_by_sequence(rest@.map_values(|p: Pending| p@)));
        if k > 0 {
            self.seq = released[k - 1].sequence;
        }
        self.packets = rest;
        let dequeue = into_payloads(released);
        self.dequeue = dequeue;
        self.dequeue.as_slice()
    }
}

/// Putting an entry in its place keeps the sequence order; the result holds
/// the entry and every entry of `s` with another sequence number, and nothing
/// else.
pub proof fn lemma_insert_pending(s: Seq<PendingView>, e: PendingView)
    requires
        sorted_by_sequence(s),
    ensures
        sorted_by_sequence(insert_pending(s, e)),
        insert_pending(s, e).contains(e),
        forall|i: int| 0 <= i < s.len() && s[i].0 != e.0 ==> insert_pending(s, e).contains(#[trigger] s[i]),
        forall|x: PendingView| #[trigger] insert_pending(s, e).contains(x) ==> x == e || s.contains(x),
        forall|x: PendingView| #[trigger] insert_pending(s, e).contains(x) && s.len() > 0 ==> x.0 >= s[0].0 || x == e,
    decreases s.len(),
{
    let r = insert_pending(s, e);
    if s.len() == 0 {
        assert(r[0] == e);
    } else if e.0 < s[0].0 {
        assert(r[0] == e);
        assert forall|i: int| 0 <= i < s.len() && s[i].0 != e.0 implies r.contains(#[trigger] s[i]) by {
            assert(r[i + 1] == s[i]);
        }
        assert forall|x: PendingView| #[trigger] r.contains(x) implies x == e || s.contains(x) by {
            let j = choose|j: int| 0 <= j < r.len() && r[j] == x;
            if j > 0 {
                assert(s[j - 1] == x);
            }
        }
        assert forall|a: int, b: int| 0 <= a < b < r.len() implies r[a].0 < r[b].0 by {
            if a > 0 {
                assert(r[a] == s[a - 1] && r[b] == s[b - 1]);
            } else {
                assert(r[b] == s[b - 1]);
                if b - 1 > 0 {
                    assert(s[0].0 < s[b - 1].0);
                }
            }
        }
        assert forall|x: PendingView| #[trigger] r.contains(x) && s.len() > 0 implies x.0 >= s[0].0 || x == e by {
            let j = choose|j: int| 0 <= j < r.len() && r[j] == x;
            if j > 0 {
                assert(r[j] == s[j - 1]);
                if j - 1 > 0 {
                    assert(s[0].0 < s[j - 1].0);
                }
            }
        }
    } else if e.0 == s[0].0 {
        let t = s.drop_first();
        assert(r == seq![e] + t);
        assert(r[0] == e);
        assert forall|i: int| 0 <= i < s.len() && s[i].0 != e.0 implies r.contains(#[trigger] s[i]) by {
            assert(i > 0);
            assert(r[i] == s[i]);
        }
        assert forall|x: PendingView| #[trigger] r.contains(x) implies x == e || s.contains(x) by {
            let j = choose|j: int| 0 <= j < r.len() && r[j] == x;
            if j > 0 {
                assert(s[j] == x);
            }
        }
        assert forall|a: int, b: int| 0 <= a < b < r.len() implies r[a].0 < r[b].0 by {
            assert(r[b] == s[b]);
            if a > 0 {
                assert(r[a] == s[a]);
            }
        }
        assert forall|x: PendingView| #[trigger] r.contains(x) && s.len() > 0 implies x.0 >= s[0].0 || x == e by {
            let j = choose|j: int| 0 <= j < r.len() && r[j] == x;
            if j > 0 {
                assert(r[j] == s[j]);
            }
        }
    } else {
        let t = s.drop_first();
        assert(sorted_by_sequence(t)) by {
            assert forall|a: int, b: int| 0 <= a < b < t.len() implies t[a].0 < t[b].0 by {
                assert(t[a] == s[a + 1] && t[b] == s[b + 1]);
            }
        }
        lemma_insert_pending(t, e);
        let rt = insert_pending(t, e);
        assert(r == seq![s[0]] + rt);
        let je = choose|j: int| 0 <= j < rt.len() && rt[j] == e;
        assert(r[je + 1] == e);
        assert forall|i: int| 0 <= i < s.len() && s[i].0 != e.0 implies r.contains(#[trigger] s[i]) by {
            if i == 0 {
                assert(r[0] == s[0]);
            } else {
                assert(t[i - 1] == s[i]);
                let j = choose|j: int| 0 <= j < rt.len() && rt[j] == t[i - 1];
                assert(r[j + 1] == s[i]);
            }
        }
        assert forall|x: PendingView| #[trigger] r.contains(x) implies x == e || s.contains(x) by {
            let j = choose|j: int| 0 <= j < r.len() && r[j] == x;
            if j == 0 {
                assert(s[0] == x);
            } else {
                assert(rt[j - 1] == x);
                assert(rt.contains(x));
                if x != e {
                    let m = choose|m: int| 0 <= m < t.len() && t[m] == x;
                    assert(s[m + 1] == x);
                }
            }
        }
        assert forall|a: int, b: int| 0 <= a < b < r.len() implies r[a].0 < r[b].0 by {
            if a > 0 {
                assert(r[a] == rt[a - 1] && r[b] == rt[b - 1]);
            } else {
                assert(r[b] == rt[b - 1]);
                assert(rt.contains(rt[b - 1]));
                if rt[b - 1] != e {
                    assert(s.contains(rt[b - 1]));
                    let m = choose|m: int| 0 <= m < s.len() && s[m] == rt[b - 1];
                    if m == 0 {
                        if t.len() > 0 {
                            assert(rt[b - 1].0 >= t[0].0);
                            assert(s[0].0 < s[1].0);
                        }
                    } else {
                        assert(s[0].0 < s[m].0);
                    }
                }
            }
        }
        assert forall|x: PendingView| #[trigger] r.contains(x) && s.len() > 0 implies x.0 >= s[0].0 || x == e by {
            let j = choose|j: int| 0 <= j < r.len() && r[j] == x;
            if j > 0 {
                assert(rt[j - 1] == x);
                assert(rt.contains(x));
                if x != e {
                    let m = choose|m: int| 0 <= m < t.len() && t[m] == x;
                    assert(s[m + 1] == x);
                    assert(s[0].0 < s[m + 1].0);
                }
            }
        }
    }
}

/// What a remuxing step from a state with its waiting packets in sequence
/// order does with them: the waiting packets stay in sequence order; the
/// packets that leave do so in increasing sequence order and all come before
/// the packets still waiting, and their payloads are what the step gives out;
/// the new packet, and every waiting packet with another sequence number, has
/// left or is still waiting.
pub open spec fn releases_in_order(r: RemuxerView, buf: Seq<u8>, now: u64) -> bool {
    let e = (read16(buf), buf.skip(2), now);
    let inserted = insert_pending(r.pending, e);
    let k = leading_timed_out(inserted, now, r.timeout) as int;
    let left = inserted.take(k);
    let next = remux_step(r, buf, now).0;
    &&& sorted_by_sequence(next.pending)
    &&& sorted_by_sequence(left)
    &&& forall|a: int, b: int| 0 <= a < left.len() && 0 <= b < next.pending.len() ==> left[a].0 < next.pending[b].0
    &&& remux_step(r, buf, now).1 == left.map_values(|x: PendingView| x.1)
    &&& (left.contains(e) || next.pending.contains(e))
    &&& forall|i: int| 0 <= i < r.pending.len() && r.pending[i].0 != e.0 ==> (left.contains(#[trigger] r.pending[i]) || next.pending.contains(r.pending[i]))
}

/// One remuxing step keeps the waiting packets in sequence order; the
/// packets that leave do so in increasing sequence order and all come before
/// the packets still waiting; the new packet, and every waiting packet with
/// another sequence number, has left or is still waiting.
pub proof fn lemma_remux_step_order(r: RemuxerView, buf: Seq<u8>, now: u64)
    requires
        sorted_by_sequence(r.pending),
    ensures
        releases_in_order(r, buf, now),
{
    let e = (read16(buf), buf.skip(2), now);
    let inserted = insert_pending(r.pending, e);
    lemma_insert_pending(r.pending, e);
    let k = leading_timed_out(inserted, now, r.timeout) as int;
    lemma_leading_bound(inserted, now, r.timeout);
    let left = inserted.take(k);
    let rest = inserted.skip(k);
    assert(inserted =~= left + rest);
    assert forall|x: PendingView| inserted.contains(x) implies left.contains(x) || rest.contains(x) by {
        let j = choose|j: int| 0 <= j < inserted.len() && inserted[j] == x;
        if j < k {
            assert(left[j] == x);
        } else {
            assert(rest[j - k] == x);
        }
    }
    assert forall|a: int, b: int| 0 <= a < left.len() && 0 <= b < rest.len() implies left[a].0 < rest[b].0 by {
        assert(left[a] == inserted[a] && rest[b] == inserted[b + k]);
    }
    assert(sorted_by_sequence(rest)) by {
        assert forall|a: int, b: int| 0 <= a < b < rest.len() implies rest[a].0 < rest[b].0 by {
            assert(rest[a] == inserted[a + k] && rest[b] == inserted[b + k]);
        }
    }
    assert(sorted_by_sequence(left)) by {
        assert forall|a: int, b: int| 0 <= a < b < left.len() implies left[a].0 < left[b].0 by {
            assert(left[a] == inserted[a] && left[b] == inserted[b]);
        }
    }
}

proof fn lemma_leading_bound(s: Seq<PendingView>, now: u64, timeout: nat)
    ensures
        leading_timed_out(s, now, timeout) <= s.len(),
    decreases s.len(),
{
    if s.len() > 0 {
        lemma_leading_bound(s.drop_first(), now, timeout);
    }
}

} // verus!
