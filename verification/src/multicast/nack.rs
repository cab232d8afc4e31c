//! Receive-side holding queues of the multicast transport: a reorder queue
//! that delays packets and finds gaps to ask for again, and a retransmission
//! store that keeps sent packets for a while.

use crate::chunk::append_bytes;
use crate::clock::{age, instant_now, millis_since, waited};
use core::ops::Range;
use std::time::Instant;
use vstd::prelude::*;

verus! {

/// A held packet: its sequence number, its bytes and its arrival time
/// (milliseconds on the queue's clock).
pub type HeldView = (u64, Seq<u8>, u64);

struct Held {
    sequence: u64,
    bytes: Vec<u8>,
    arrived: u64,
}

impl View for Held {
    type V = HeldView;

    closed spec fn view(&self) -> HeldView {
        (self.sequence, self.bytes@, self.arrived)
    }
}

spec fn held_views(s: Seq<Held>) -> Seq<HeldView> {
    s.map_values(|h: Held| h@)
}

/// Sequence numbers strictly increase along `s`.
pub open spec fn sorted_held(s: Seq<HeldView>) -> bool {
    forall|i: int, j: int| 0 <= i < j < s.len() ==> s[i].0 < s[j].0
}

/// Whether a packet with sequence number `k` is held.
pub open spec fn holds(s: Seq<HeldView>, k: u64) -> bool {
    exists|i: int| 0 <= i < s.len() && s[i].0 == k
}

/// `s` with `e` put in sequence order; a packet with the same sequence number
/// is replaced.
pub open spec fn insert_held(s: Seq<HeldView>, e: HeldView) -> Seq<HeldView>
    decreases s.len(),
{
    if s.len() == 0 {
        seq![e]
    } else if e.0 < s[0].0 {
        seq![e] + s
    } else if e.0 == s[0].0 {
        seq![e] + s.drop_first()
    } else {
        seq![s[0]] + insert_held(s.drop_first(), e)
    }
}

fn insert_held_exec(held: &mut Vec<Held>, entry: Held) -> (replaced: bool)
    requires
        sorted_held(held_views(old(held)@)),
    ensures
        held_views(final(held)@) == insert_held(held_views(old(held)@), entry@),
        sorted_held(held_views(final(held)@)),
        replaced == holds(held_views(old(held)@), entry@.0),
{
    let ghost s = held_views(held@);
    let ghost e = entry@;
    let sequence = entry.sequence;
    assert(s.skip(0) =~= s);
    assert(s.take(0) + insert_held(s, e) =~= insert_held(s, e));
    let mut i: usize = 0;
    while i < held.len() && held[i].sequence < sequence
        invariant
            i <= held@.len(),
            s == held_views(held@),
            sorted_held(s),
            e.0 == sequence,
            forall|j: int| 0 <= j < i ==> s[j].0 < sequence,
            insert_held(s, e) == s.take(i as int) + insert_held(s.skip(i as int), e),
        decreases held@.len() - i,
    {
        proof {
            let t = s.skip(i as int);
            assert(t[0] == s[i as int]);
            assert(t.drop_first() =~= s.skip(i + 1));
            assert(insert_held(t, e) == seq![t[0]] + insert_held(t.drop_first(), e));
            assert(s.take(i + 1) =~= s.take(i as int) + seq![s[i as int]]);
        }
        i = i + 1;
    }
    let ghost t = s.skip(i as int);
    let replaced;
    if i < held.len() && held[i].sequence == sequence {
        held.remove(i);
        held.insert(i, entry);
        replaced = true;
        proof {
            assert(t[0] == s[i as int]);
            assert(t.drop_first() =~= s.skip(i + 1));
        }
        assert(held_views(held@) =~= s.take(i as int) + seq![e] + s.skip(i + 1));
    } else {
        held.insert(i, entry);
        replaced = false;
        proof {
            if i < s.len() {
                assert(t[0] == s[i as int]);
                assert(e.0 < t[0].0);
            } else {
                assert(t =~= Seq::<HeldView>::empty());
            }
            assert forall|j: int| 0 <= j < s.len() implies s[j].0 != sequence by {
                if j >= i {
                    assert(s[i as int].0 <= s[j].0);
                }
            }
        }
        assert(held_views(held@) =~= s.take(i as int) + seq![e] + s.skip(i as int));
    }
    let ghost inserted = held_views(held@);
    assert(sorted_held(inserted)) by {
        assert forall|a: int, b: int| 0 <= a < b < inserted.len() implies inserted[a].0
            < inserted[b].0 by {
            if a < i && b < i {
                assert(inserted[a] == s[a] && inserted[b] == s[b]);
            }
        }
    }
    replaced
}

/// Scanning sequence numbers in increasing order for a gap: the state after
/// `keys` is (last number seen as a signed value, or -1 before any; start and
/// end of the range found; whether a gap is open; whether the scan stopped).
pub open spec fn loss_scan(keys: Seq<u64>) -> (i64, u64, u64, bool, bool)
    decreases keys.len(),
{
    if keys.len() == 0 {
        (-1i64, 0u64, 0u64, false, false)
    } else {
        let (index, start, end, loss, done) = loss_scan(keys.drop_last());
        let seq = keys.last() as i64;
        if done {
            (index, start, end, loss, done)
        } else if index != -1 && (index as int + 1 == seq as int || (index == i64::MAX && seq
            == i64::MIN)) {
            if loss {
                let end2 = index as u64;
                (index, start, end2, start != end2, true)
            } else {
                (seq, start, end, loss, done)
            }
        } else if index != -1 && !loss {
            (seq, seq as u64, end, true, done)
        } else {
            (seq, start, end, loss, done)
        }
    }
}

/// The range to ask for again among held sequence numbers `keys`, if any: it
/// starts at the first number after a gap and ends at the last number before
/// the next two consecutive numbers (it stays at 0 when there are none); a
/// range that starts and ends on the same number is not asked for.
pub open spec fn loss_range_of(keys: Seq<u64>) -> Option<(u64, u64)> {
    let (_, start, end, loss, _) = loss_scan(keys);
    if loss {
        Some((start, end))
    } else {
        None
    }
}

/// Finds the range to ask for again among sequence numbers `keys`, given in
/// increasing order.
pub fn find_loss(keys: &[u64]) -> (r: Option<Range<u64>>)
    ensures
        match r {
            Some(range) => loss_range_of(keys@) == Some((range.start, range.end)),
            None => loss_range_of(keys@) is None,
        },
{
    let mut index: i64 = -1;
    let mut start: u64 = 0;
    let mut end: u64 = 0;
    let mut loss = false;
    let mut i: usize = 0;
    let mut done = false;
    while i < keys.len() && !done
        invariant
            i <= keys@.len(),
            loss_scan(keys@.take(i as int)) == (index, start, end, loss, done),
        decreases keys@.len() - i,
    {
        let seq = keys[i] as i64;
        assert(keys@.take(i + 1).drop_last() =~= keys@.take(i as int));
        if index != -1 && index.wrapping_add(1) == seq {
            if loss {
                end = index as u64;
                if start == end {
                    loss = false;
                }
                done = true;
            } else {
                index = seq;
            }
        } else {
            if index != -1 && !loss {
                start = seq as u64;
                loss = true;
            }
            index = seq;
        }
        i = i + 1;
    }
    proof {
        if done && i < keys@.len() {
            assert forall|m: nat| i <= m <= keys@.len() implies #[trigger] loss_scan(keys@.take(m as int)) == (index, start, end, loss, done) by {
                lemma_loss_scan_done(keys@, i as nat, m);
            }
            assert(keys@.take(keys@.len() as int) =~= keys@);
        }
        assert(keys@.take(keys@.len() as int) =~= keys@);
    }
    if loss {
        Some(Range { start, end })
    } else {
        None
    }
}

proof fn lemma_loss_scan_done(keys: Seq<u64>, i: nat, m: nat)
    requires
        i <= m <= keys.len(),
        loss_scan(keys.take(i as int)).4,
    ensures
        loss_scan(keys.take(m as int)) == loss_scan(keys.take(i as int)),
    decreases m - i,
{
    if m > i {
        lemma_loss_scan_done(keys, i, (m - 1) as nat);
        assert(keys.take(m as int).drop_last() =~= keys.take(m - 1));
    }
}

/// The scan over consecutive sequence numbers never opens a gap, and its last
/// number seen is the last key.
proof fn lemma_consecutive_scan(keys: Seq<u64>)
    requires
        forall|i: int| 0 < i < keys.len() ==> #[trigger] keys[i] == keys[i - 1] + 1,
    ensures
        !loss_scan(keys).3,
        !loss_scan(keys).4,
        keys.len() == 0 ==> loss_scan(keys).0 == -1i64,
        keys.len() > 0 ==> loss_scan(keys).0 == keys.last() as i64,
    decreases keys.len(),
{
    if keys.len() > 0 {
        let p = keys.drop_last();
        assert forall|i: int| 0 < i < p.len() implies #[trigger] p[i] == p[i - 1] + 1 by {
            assert(p[i] == keys[i] && p[i - 1] == keys[i - 1]);
        }
        lemma_consecutive_scan(p);
        if p.len() > 0 {
            let prev = p.last();
            let seq = keys.last();
            assert(seq == keys[keys.len() - 1]);
            assert(seq == keys[keys.len() - 2] + 1);
            assert(prev < 0xffff_ffff_ffff_ffffu64);
            assert((prev as i64) != -1i64 && (((prev as i64) < 0x7fff_ffff_ffff_ffffi64 && (seq as i64)
                == (prev as i64) + 1) || ((prev as i64) == 0x7fff_ffff_ffff_ffffi64 && (seq as i64)
                == -0x8000_0000_0000_0000i64))) by (bit_vector)
                requires
                    prev < 0xffff_ffff_ffff_ffffu64,
                    seq == prev + 1,
            ;
        }
    }
}

/// Consecutive sequence numbers have no gap: nothing is asked for again.
pub proof fn lemma_no_loss_without_gap(keys: Seq<u64>)
    requires
        forall|i: int| 0 < i < keys.len() ==> #[trigger] keys[i] == keys[i - 1] + 1,
    ensures
        loss_range_of(keys) is None,
{
    lemma_consecutive_scan(keys);
}

/// A reorder queue whose held sequence numbers form one run without a gap
/// asks for nothing again: `loss_range` gives `None`, so no re-request is
/// sent.
pub proof fn lemma_contiguous_queue_no_loss(v: DequeueView)
    requires
        forall|i: int| 0 < i < v.held.len() ==> #[trigger] v.held[i].0 == v.held[i - 1].0 + 1,
    ensures
        loss_range_of(v.held.map_values(|h: HeldView| h.0)) is None,
{
    let keys = v.held.map_values(|h: HeldView| h.0);
    assert forall|i: int| 0 < i < keys.len() implies #[trigger] keys[i] == keys[i - 1] + 1 by {
        assert(keys[i] == v.held[i].0 && keys[i - 1] == v.held[i - 1].0);
    }
    lemma_no_loss_without_gap(keys);
}

/// All sequence numbers fit a signed 64-bit integer.
pub open spec fn fits_i64(keys: Seq<u64>) -> bool {
    forall|i: int| 0 <= i < keys.len() ==> #[trigger] keys[i] < 0x8000_0000_0000_0000u64
}

proof fn lemma_small_cast(x: u64)
    requires
        x < 0x8000_0000_0000_0000u64,
    ensures
        x as i64 as int == x as int,
        x as i64 as u64 == x,
        x as i64 >= 0,
{
    assert(x as i64 as u64 == x && x as i64 >= 0i64) by (bit_vector)
        requires
            x < 0x8000_0000_0000_0000u64,
    ;
}

/// The scan over the first `m` keys, when the first gap is before position
/// `g` and the first consecutive pair after it ends at position `c` (or there
/// is none, `c` being the number of keys).
proof fn lemma_scan_prefix(keys: Seq<u64>, g: int, c: int, m: int)
    requires
        fits_i64(keys),
        1 <= g < c <= keys.len(),
        forall|i: int| 0 < i < g ==> #[trigger] keys[i] == keys[i - 1] + 1,
        keys[g] != keys[g - 1] + 1,
        forall|i: int| g < i < c ==> #[trigger] keys[i] != keys[i - 1] + 1,
        c < keys.len() ==> keys[c] == keys[c - 1] + 1,
        0 <= m <= keys.len(),
        m <= c + 1,
    ensures
        m == 0 ==> loss_scan(keys.take(m)) == (-1i64, 0u64, 0u64, false, false),
        1 <= m <= g ==> loss_scan(keys.take(m)) == (keys[m - 1] as i64, 0u64, 0u64, false, false),
        g < m <= c ==> loss_scan(keys.take(m)) == (keys[m - 1] as i64, keys[g], 0u64, true, false),
        m == c + 1 ==> loss_scan(keys.take(m)) == (
            keys[c - 1] as i64,
            keys[g],
            keys[c - 1],
            keys[g] != keys[c - 1],
            true,
        ),
    decreases m,
{
    if m == 0 {
        assert(keys.take(0) =~= Seq::<u64>::empty());
    } else {
        lemma_scan_prefix(keys, g, c, m - 1);
        let t = keys.take(m);
        assert(t.drop_last() =~= keys.take(m - 1));
        assert(t.last() == keys[m - 1]);
        let seq = keys[m - 1];
        assert(seq < 0x8000_0000_0000_0000u64);
        lemma_small_cast(seq);
        if m >= 2 {
            let prev = keys[m - 2];
            assert(prev < 0x8000_0000_0000_0000u64);
            lemma_small_cast(prev);
            if m - 1 < g {
                assert(keys[m - 1] == keys[m - 2] + 1);
            } else if m - 1 == g {
                assert(keys[g] != keys[g - 1] + 1);
            } else if m - 1 < c {
                assert(keys[m - 1] != keys[m - 2] + 1);
            } else {
                assert(keys[c] == keys[c - 1] + 1);
            }
        }
    }
}

/// The range asked for again: after the first gap between consecutive held
/// sequence numbers, it runs from the first number after the gap to the last
/// number before the next pair of consecutive numbers, and numbers after that
/// pair do not change it. A range that starts and ends on the same number is
/// not asked for.
pub proof fn lemma_loss_range_first_gap(keys: Seq<u64>, g: int, c: int)
    requires
        fits_i64(keys),
        1 <= g < c < keys.len(),
        forall|i: int| 0 < i < g ==> #[trigger] keys[i] == keys[i - 1] + 1,
        keys[g] != keys[g - 1] + 1,
        forall|i: int| g < i < c ==> #[trigger] keys[i] != keys[i - 1] + 1,
        keys[c] == keys[c - 1] + 1,
    ensures
        loss_range_of(keys) == if keys[g] == keys[c - 1] {
            None
        } else {
            Some((keys[g], keys[c - 1]))
        },
{
    lemma_scan_prefix(keys, g, c, c + 1);
    lemma_loss_scan_done(keys, (c + 1) as nat, keys.len());
    assert(keys.take(keys.len() as int) =~= keys);
}

/// A gap with no pair of consecutive numbers after it: the range starts at
/// the first number after the gap and its end stays at 0.
pub proof fn lemma_loss_range_open_gap(keys: Seq<u64>, g: int)
    requires
        fits_i64(keys),
        1 <= g < keys.len(),
        forall|i: int| 0 < i < g ==> #[trigger] keys[i] == keys[i - 1] + 1,
        keys[g] != keys[g - 1] + 1,
        forall|i: int| g < i < keys.len() ==> #[trigger] keys[i] != keys[i - 1] + 1,
    ensures
        loss_range_of(keys) == Some((keys[g], 0u64)),
{
    lemma_scan_prefix(keys, g, keys.len() as int, keys.len() as int);
    assert(keys.take(keys.len() as int) =~= keys);
}

/// The round-trip time of a timestamp `time` echoed back at `now`: the time
/// since, wrapping around when the timestamp is later than `now`.
pub open spec fn rtt_sample(now: u64, time: u64) -> u64 {
    now.wrapping_sub(time)
}

/// The queue after the echo of timestamp `time` comes back at `now`: the
/// round-trip time becomes the time since.
pub open spec fn updated(v: DequeueView, now: u64, time: u64) -> DequeueView {
    DequeueView { rtt: rtt_sample(now, time), ..v }
}

/// Reorder queue state: the held packets in sequence order, the measured
/// round-trip time and the holding delay (milliseconds).
pub struct DequeueView {
    pub held: Seq<HeldView>,
    pub rtt: u64,
    pub delay: nat,
}

/// The queue after a packet with `sequence` and `bytes` arrives at `now`: it
/// is held unless a packet with the same sequence number is held already.
pub open spec fn pushed(v: DequeueView, sequence: u64, bytes: Seq<u8>, now: u64) -> DequeueView {
    DequeueView {
        held: if holds(v.held, sequence) {
            v.held
        } else {
            insert_held(v.held, (sequence, bytes, now))
        },
        ..v
    }
}

/// The queue after a release at `now`, and what is released: the packet with
/// the smallest sequence number, if it has been held for the delay.
pub open spec fn popped(v: DequeueView, now: u64) -> (DequeueView, Option<Seq<u8>>) {
    if v.held.len() > 0 && age(now, v.held[0].2) >= v.delay {
        (DequeueView { held: v.held.drop_first(), ..v }, Some(v.held[0].1))
    } else {
        (v, None)
    }
}

/// Holds received packets for a delay, releases them in sequence order, and
/// finds gaps to ask for again.
pub struct Dequeue {
    queue: Vec<Held>,
    rtt: u64,
    time: Instant,
    delay: usize,
}

impl View for Dequeue {
    type V = DequeueView;

    closed spec fn view(&self) -> DequeueView {
        DequeueView { held: held_views(self.queue@), rtt: self.rtt, delay: self.delay as nat }
    }
}

impl Dequeue {
    #[verifier::type_invariant]
    closed spec fn inv(&self) -> bool {
        sorted_held(held_views(self.queue@))
    }

    /// A queue that holds packets for `delay` milliseconds; the round-trip
    /// time starts at half the delay.
    pub fn new(delay: usize) -> (r: Dequeue)
        ensures
            r@ == (DequeueView { held: Seq::<HeldView>::empty(), rtt: (delay / 2) as u64, delay: delay as nat }),
    {
        let r = Dequeue { queue: Vec::new(), rtt: (delay / 2) as u64, time: instant_now(), delay };
        assert(held_views(r.queue@) =~= Seq::<HeldView>::empty());
        r
    }

    /// Milliseconds since the queue was made.
    pub fn get_time(&self) -> u64 {
        millis_since(&self.time)
    }

    /// The measured round-trip time, in milliseconds.
    pub fn rtt(&self) -> (r: u64)
        ensures
            r == self@.rtt,
    {
        self.rtt
    }

    /// Takes the round-trip time from an echoed timestamp `time` (from
    /// `get_time`), at time `now`; a timestamp later than `now` wraps around.
    pub fn update_at(&mut self, now: u64, time: u64)
        ensures
            final(self)@ == updated(old(self)@, now, time),
    {
        proof {
            use_type_invariant(&*self);
        }
        self.rtt = now.wrapping_sub(time);
    }

    /// Takes the round-trip time from an echoed timestamp `time`, now.
    pub fn update(&mut self, time: u64)
        ensures
            exists|now: u64| final(self)@ == #[trigger] updated(old(self)@, now, time),
    {
        let now = self.get_time();
        self.update_at(now, time);
    }

    /// Holds a packet that arrived at time `now`, unless one with the same
    /// sequence number is held already.
    pub fn push_at(&mut self, sequence: u64, bytes: Vec<u8>, now: u64)
        ensures
            final(self)@ == pushed(old(self)@, sequence, bytes@, now),
    {
        proof {
            use_type_invariant(&*self);
        }
        let mut queue: Vec<Held> = Vec::new();
        std::mem::swap(&mut queue, &mut self.queue);
        let mut i: usize = 0;
        let mut found = false;
        while i < queue.len()
            invariant
                i <= queue@.len(),
                found == exists|j: int| 0 <= j < i && held_views(queue@)[j].0 == sequence,
            decreases queue@.len() - i,
        {
            if queue[i].sequence == sequence {
                found = true;
            }
            assert(held_views(queue@)[i as int].0 == queue@[i as int].sequence);
            i = i + 1;
        }
        if !found {
            insert_held_exec(&mut queue, Held { sequence, bytes, arrived: now });
        }
        self.queue = queue;
    }

    /// Holds a packet that arrives now, unless one with the same sequence
    /// number is held already.
    pub fn push(&mut self, sequence: u64, bytes: Vec<u8>)
        ensures
            exists|now: u64| final(self)@ == #[trigger] pushed(old(self)@, sequence, bytes@, now),
    {
        let now = self.get_time();
        self.push_at(sequence, bytes, now);
    }

    /// At time `now`, releases the packet with the smallest sequence number if
    /// it has been held for the delay.
    pub fn pop_at(&mut self, now: u64) -> (r: Option<Vec<u8>>)
        ensures
            popped(old(self)@, now) == (final(self)@, match r {
                Some(b) => Some(b@),
                None => None,
            }),
    {
        proof {
            use_type_invariant(&*self);
        }
        if self.queue.len() > 0 && waited(now, self.queue[0].arrived) as u128 >= self.delay as u128 {
            let mut queue: Vec<Held> = Vec::new();
            std::mem::swap(&mut queue, &mut self.queue);
            let ghost before = queue@;
            let first = queue.remove(0);
            assert(held_views(queue@) =~= held_views(before).drop_first());
            self.queue = queue;
            Some(first.bytes)
        } else {
            None
        }
    }

    /// Releases, now, the packet with the smallest sequence number if it has
    /// been held for the delay.
    pub fn pop(&mut self) -> (r: Option<Vec<u8>>)
        ensures
            exists|now: u64|
                #[trigger] popped(old(self)@, now) == (final(self)@, match r {
                    Some(b) => Some(b@),
                    None => None,
                }),
    {
        let now = self.get_time();
        self.pop_at(now)
    }

    /// The range of held sequence numbers to ask for again, if any.
    pub fn loss_range(&self) -> (r: Option<Range<u64>>)
        ensures
            match r {
                Some(range) => loss_range_of(self@.held.map_values(|h: HeldView| h.0)) == Some((range.start, range.end)),
                None => loss_range_of(self@.held.map_values(|h: HeldView| h.0)) is None,
            },
    {
        let mut keys: Vec<u64> = Vec::new();
        let mut i: usize = 0;
        while i < self.queue.len()
            invariant
                i <= self.queue@.len(),
                keys@ == held_views(self.queue@).take(i as int).map_values(|h: HeldView| h.0),
            decreases self.queue@.len() - i,
        {
            keys.push(self.queue[i].sequence);
            i = i + 1;
            assert(keys@ =~= held_views(self.queue@).take(i as int).map_values(|h: HeldView| h.0));
        }
        assert(held_views(self.queue@).take(i as int) =~= held_views(self.queue@));
        find_loss(keys.as_slice())
    }
}

/// How many packets at the front of `s` have been held for `delay`
/// milliseconds at time `now`.
pub open spec fn leading_expired(s: Seq<HeldView>, now: u64, delay: nat) -> nat
    decreases s.len(),
{
    if s.len() == 0 {
        0
    } else if age(now, s[0].2) >= delay {
        1 + leading_expired(s.drop_first(), now, delay)
    } else {
        0
    }
}

/// Retransmission store state: the kept packets in sequence order and how
/// long they are kept (milliseconds).
pub struct QueueView {
    pub held: Seq<HeldView>,
    pub delay: nat,
}

/// The store after a packet with `sequence` and `bytes` is kept at `now`: it
/// replaces a packet with the same sequence number, then the packets at the
/// front that have been kept for the delay are dropped.
pub open spec fn stored(v: QueueView, sequence: u64, bytes: Seq<u8>, now: u64) -> QueueView {
    let inserted = insert_held(v.held, (sequence, bytes, now));
    QueueView { held: inserted.skip(leading_expired(inserted, now, v.delay) as int), delay: v.delay }
}

/// The expired run at the front is a run of expired packets, and the packet
/// after it, if any, has not expired.
proof fn lemma_expired_run(s: Seq<HeldView>, now: u64, delay: nat)
    ensures
        leading_expired(s, now, delay) <= s.len(),
        forall|i: int| 0 <= i < leading_expired(s, now, delay) ==> age(now, #[trigger] s[i].2) >= delay,
        leading_expired(s, now, delay) < s.len() ==> age(now, s[leading_expired(s, now, delay) as int].2) < delay,
    decreases s.len(),
{
    if s.len() > 0 {
        let t = s.drop_first();
        lemma_expired_run(t, now, delay);
        if age(now, s[0].2) >= delay {
            assert forall|i: int| 0 <= i < leading_expired(s, now, delay) implies age(now, #[trigger] s[i].2) >= delay by {
                if i > 0 {
                    assert(s[i] == t[i - 1]);
                }
            }
            let n = leading_expired(s, now, delay) as int;
            if n < s.len() {
                assert(s[n] == t[n - 1]);
            }
        }
    }
}

/// What keeping a packet does to the store: the packet joins the kept ones in
/// sequence order, and then exactly the packets at the front that have been
/// kept for the delay are dropped. Every dropped packet has expired, and the
/// first packet still kept, if any, has not.
pub proof fn lemma_store_drops_expired(v: QueueView, sequence: u64, bytes: Seq<u8>, now: u64)
    ensures
        ({
            let inserted = insert_held(v.held, (sequence, bytes, now));
            let after = stored(v, sequence, bytes, now);
            exists|n: int|
                0 <= n <= inserted.len() && after.held == inserted.skip(n) && (forall|i: int|
                    0 <= i < n ==> age(now, #[trigger] inserted[i].2) >= v.delay)
        }),
        stored(v, sequence, bytes, now).held.len() > 0 ==> age(now, stored(v, sequence, bytes, now).held[0].2) < v.delay,
        stored(v, sequence, bytes, now).delay == v.delay,
{
    let inserted = insert_held(v.held, (sequence, bytes, now));
    lemma_expired_run(inserted, now, v.delay);
    let n = leading_expired(inserted, now, v.delay) as int;
    let after = stored(v, sequence, bytes, now);
    assert(after.held == inserted.skip(n));
    if after.held.len() > 0 {
        assert(after.held[0] == inserted[n]);
    }
}

/// Keeps sent packets for a while so that they can be sent again.
pub struct Queue {
    queue: Vec<Held>,
    delay: usize,
    time: Instant,
}

impl View for Queue {
    type V = QueueView;

    closed spec fn view(&self) -> QueueView {
        QueueView { held: held_views(self.queue@), delay: self.delay as nat }
    }
}

impl Queue {
    #[verifier::type_invariant]
    closed spec fn inv(&self) -> bool {
        sorted_held(held_views(self.queue@))
    }

    /// A store that keeps packets for `delay` milliseconds.
    pub fn new(delay: usize) -> (r: Queue)
        ensures
            r@ == (QueueView { held: Seq::<HeldView>::empty(), delay: delay as nat }),
    {
        let r = Queue { queue: Vec::new(), delay, time: instant_now() };
        assert(held_views(r.queue@) =~= Seq::<HeldView>::empty());
        r
    }

    /// Keeps a packet at time `now` and drops the expired ones at the front.
    pub fn push_at(&mut self, sequence: u64, bytes: Vec<u8>, now: u64)
        ensures
            final(self)@ == stored(old(self)@, sequence, bytes@, now),
    {
        proof {
            use_type_invariant(&*self);
        }
        let mut queue: Vec<Held> = Vec::new();
        std::mem::swap(&mut queue, &mut self.queue);
        insert_held_exec(&mut queue, Held { sequence, bytes, arrived: now });
        let ghost inserted = held_views(queue@);
        let mut k: usize = 0;
        assert(inserted.skip(0) =~= inserted);
        while k < queue.len() && waited(now, queue[k].arrived) as u128 >= self.delay as u128
            invariant
                k <= queue@.len(),
                inserted == held_views(queue@),
                leading_expired(inserted, now, self.delay as nat) == k + leading_expired(
                    inserted.skip(k as int),
                    now,
                    self.delay as nat,
                ),
            decreases queue@.len() - k,
        {
            proof {
                let t = inserted.skip(k as int);
                assert(t[0] == inserted[k as int]);
                assert(t.drop_first() =~= inserted.skip(k + 1));
            }
            k = k + 1;
        }
        proof {
            let t = inserted.skip(k as int);
            if k < inserted.len() {
                assert(t[0] == inserted[k as int]);
            }
        }
        let rest = queue.split_off(k);
        assert(held_views(rest@) =~= inserted.skip(k as int));
        assert(sorted_held(held_views(rest@)));
        self.queue = rest;
    }

    /// Keeps a packet now and drops the expired ones at the front.
    pub fn push(&mut self, sequence: u64, bytes: Vec<u8>)
        ensures
            exists|now: u64| final(self)@ == #[trigger] stored(old(self)@, sequence, bytes@, now),
    {
        let now = millis_since(&self.time);
        self.push_at(sequence, bytes, now);
    }

    /// A copy of the kept packet with sequence number `sequence`, if there is
    /// one.
    pub fn get(&self, sequence: u64) -> (r: Option<Vec<u8>>)
        ensures
            r is None <==> !holds(self@.held, sequence),
            r matches Some(b) ==> exists|i: int|
                0 <= i < self@.held.len() && #[trigger] self@.held[i].0 == sequence && self@.held[i].1
                    == b@,
    {
        let mut i: usize = 0;
        while i < self.queue.len()
            invariant
                i <= self.queue@.len(),
                forall|j: int| 0 <= j < i ==> #[trigger] held_views(self.queue@)[j].0 != sequence,
            decreases self.queue@.len() - i,
        {
            assert(held_views(self.queue@)[i as int] == self.queue@[i as int]@);
            if self.queue[i].sequence == sequence {
                let mut copy: Vec<u8> = Vec::new();
                append_bytes(&mut copy, self.queue[i].bytes.as_slice());
                assert(self@.held[i as int].0 == sequence && self@.held[i as int].1 == copy@);
                return Some(copy);
            }
            i = i + 1;
        }
        None
    }
}

} // verus!
