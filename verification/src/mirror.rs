//! Descriptions and callbacks of the mirroring API.

use std::collections::VecDeque;
use vstd::prelude::*;

verus! {

/// Graphics back end of a video renderer.
#[derive(Clone, Copy, Debug, PartialEq, Eq, Structural)]
pub enum GraphicsBackend {
    Direct3D11,
    WebGPU,
}

/// Back end of a video player.
#[derive(Clone, Copy, Debug, PartialEq, Eq, Structural)]
pub enum Backend {
    Dx11,
    Wgpu,
}

/// Description of the audio encoding.
#[derive(Clone, Copy, Debug, PartialEq, Eq, Structural)]
pub struct AudioDescriptor {
    pub sample_rate: u64,
    pub bit_rate: u64,
}

/// Told when a stream closes.
pub trait Close {
    /// Callback when the sender is closed. This may be because the external
    /// side actively calls the close, or the audio and video packets cannot be
    /// sent (the network is disconnected), etc.
    fn close(&self);
}

/// The most samples that a silent period fills in one read.
pub const MUTE_SAMPLES: usize = 48000;

/// The samples of the chunks in `chunks`, in order.
pub open spec fn samples_of(chunks: Seq<Vec<i16>>) -> Seq<i16>
    decreases chunks.len(),
{
    if chunks.len() == 0 {
        seq![]
    } else {
        chunks[0]@ + samples_of(chunks.drop_first())
    }
}

/// Appending a chunk appends its samples.
pub proof fn lemma_samples_push(chunks: Seq<Vec<i16>>, chunk: Vec<i16>)
    ensures
        samples_of(chunks.push(chunk)) == samples_of(chunks) + chunk@,
    decreases chunks.len(),
{
    if chunks.len() == 0 {
        assert(chunks.push(chunk).drop_first() =~= seq![]);
        assert(samples_of(chunks.push(chunk).drop_first()) == Seq::<i16>::empty());
        assert(samples_of(chunks.push(chunk)) =~= chunk@);
    } else {
        lemma_samples_push(chunks.drop_first(), chunk);
        assert(chunks.push(chunk).drop_first() =~= chunks.drop_first().push(chunk));
        assert(samples_of(chunks.push(chunk)) =~= samples_of(chunks) + chunk@);
    }
}

/// The samples of a prefix of the chunks are no more than those of all of
/// them.
proof fn lemma_samples_prefix_len(chunks: Seq<Vec<i16>>, i: int)
    requires
        0 <= i <= chunks.len(),
    ensures
        samples_of(chunks.take(i)).len() <= samples_of(chunks).len(),
    decreases chunks.len() - i,
{
    if i < chunks.len() {
        lemma_samples_prefix_len(chunks, i + 1);
        lemma_samples_push(chunks.take(i), chunks[i]);
        assert(chunks.take(i).push(chunks[i]) =~= chunks.take(i + 1));
    } else {
        assert(chunks.take(i) =~= chunks);
    }
}

/// Whether a read of `len` output samples over `channels` channels is
/// served from `available` mono samples: each sample is written to every
/// channel of one frame.
pub open spec fn served(available: Seq<i16>, len: nat, channels: nat) -> bool {
    len == 0 || (channels > 0 && available.len() * channels >= len)
}

/// The number of mono samples that a served read takes.
pub open spec fn frames_taken(len: nat, channels: nat) -> nat {
    if channels == 0 {
        0
    } else {
        len / channels
    }
}

/// Mono samples waiting to be played, taken chunk by chunk, and spread over
/// the channels of the player's buffer.
pub struct AudioQueue {
    pending: VecDeque<Vec<i16>>,
    current: Vec<i16>,
    pos: usize,
}

impl AudioQueue {
    /// The read position lies within the chunk being played.
    pub closed spec fn wf(self) -> bool {
        self.pos <= self.current@.len()
    }

    /// The samples that are still to be played, in order.
    pub closed spec fn view(self) -> Seq<i16> {
        self.current@.skip(self.pos as int) + samples_of(self.pending@)
    }

    /// An empty queue.
    pub fn new() -> (q: Self)
        ensures
            q.wf(),
            q.view() == Seq::<i16>::empty(),
    {
        let q = AudioQueue { pending: VecDeque::new(), current: Vec::new(), pos: 0 };
        assert(q.view() =~= Seq::<i16>::empty());
        q
    }

    /// Whether at least `n` samples are queued.
    pub fn has_samples(&self, n: usize) -> (r: bool)
        requires
            self.wf(),
        ensures
            r == (self.view().len() >= n),
    {
        let count: usize = self.current.len() - self.pos;
        if count >= n {
            return true;
        }
        let mut count = count;
        let mut i: usize = 0;
        assert(self.pending@.take(0) =~= Seq::<Vec<i16>>::empty());
        while i < self.pending.len()
            invariant
                i <= self.pending@.len(),
                count < n,
                count == self.current@.skip(self.pos as int).len() + samples_of(self.pending@.take(i as int)).len(),
            decreases self.pending@.len() - i,
        {
            let len = self.pending[i].len();
            proof {
                lemma_samples_push(self.pending@.take(i as int), self.pending@[i as int]);
                assert(self.pending@.take(i as int).push(self.pending@[i as int]) =~= self.pending@.take(i + 1));
            }
            if len >= n - count {
                proof {
                    lemma_samples_prefix_len(self.pending@, i + 1);
                }
                return true;
            }
            count = count + len;
            i = i + 1;
        }
        assert(self.pending@.take(i as int) =~= self.pending@);
        false
    }

    /// Queues a chunk of samples after those already queued.
    pub fn push(&mut self, chunk: Vec<i16>)
        requires
            old(self).wf(),
        ensures
            final(self).wf(),
            final(self).view() == old(self).view() + chunk@,
    {
        proof {
            lemma_samples_push(self.pending@, chunk);
        }
        self.pending.push_back(chunk);
        assert(self.view() =~= old(self).view() + chunk@);
    }

    /// Fills `output`, a buffer of frames of `channels` interleaved samples,
    /// writing each queued sample to every channel of one frame. When the
    /// queue runs short the whole buffer is silence instead and the queue is
    /// left empty.
    pub fn read(&mut self, output: &mut [i16], channels: usize)
        requires
            old(self).wf(),
            served(old(self).view(), old(output)@.len(), channels as nat) ==> (old(output)@.len()
                == 0 || old(output)@.len() % (channels as nat) == 0),
            !served(old(self).view(), old(output)@.len(), channels as nat) ==> old(output)@.len()
                <= MUTE_SAMPLES,
        ensures
            final(self).wf(),
            final(output)@.len() == old(output)@.len(),
            served(old(self).view(), old(output)@.len(), channels as nat) ==> {
                &&& forall|j: int|
                    0 <= j < old(output)@.len() ==> #[trigger] final(output)@[j] == old(
                        self,
                    ).view()[j / (channels as int)]
                &&& final(self).view() == old(self).view().skip(
                    frames_taken(old(output)@.len(), channels as nat) as int,
                )
            },
            !served(old(self).view(), old(output)@.len(), channels as nat) ==> {
                &&& forall|j: int|
                    0 <= j < old(output)@.len() ==> #[trigger] final(output)@[j] == 0
                &&& final(self).view() == Seq::<i16>::empty()
            },
    {
        let ghost avail = self.view();
        let n = output.len();
        if n == 0 {
            assert(avail.skip(0) =~= avail);
            return;
        }
        if channels == 0 {
            self.drain();
            Self::silence(output);
            return;
        }
        let mut index: usize = 0;
        let ghost mut k: int = 0;
        loop
            invariant_except_break
                self.view() == avail.skip(k),
                forall|j: int| 0 <= j < index ==> #[trigger] output@[j] == avail[j / (channels as int)],
            invariant
                n == output@.len(),
                channels > 0,
                avail == old(self).view(),
                served(avail, n as nat, channels as nat) ==> (n as nat) % (channels as nat) == 0,
                !served(avail, n as nat, channels as nat) ==> n <= MUTE_SAMPLES,
                0 <= k <= avail.len(),
                index == k * channels,
                index <= n,
                self.pos <= self.current@.len(),
            ensures
                served(avail, n as nat, channels as nat) ==> {
                    &&& forall|j: int| 0 <= j < n ==> #[trigger] output@[j] == avail[j / (channels as int)]
                    &&& self.view() == avail.skip(n as int / channels as int)
                },
                !served(avail, n as nat, channels as nat) ==> {
                    &&& forall|j: int| 0 <= j < n ==> #[trigger] output@[j] == 0
                    &&& self.view() == Seq::<i16>::empty()
                },
            decreases 2 * self.view().len() + self.pending@.len() + (n - index),
        {
            if index >= n {
                proof {
                    lemma_whole_frames(k, channels as int, n as int, avail.len() as int);
                }
                break;
            }
            if self.pos < self.current.len() {
                let item = self.current[self.pos];
                proof {
                    assert(avail.skip(k)[0] == item);
                    assert(k < avail.len());
                    lemma_next_frame_fits(k, channels as int, n as int, avail.len() as int);
                }
                let mut i: usize = 0;
                while i < channels
                    invariant
                        n == output@.len(),
                        channels > 0,
                        index == k * channels,
                        index + channels <= n,
                        0 <= k < avail.len(),
                        item == avail[k],
                        i <= channels,
                        forall|j: int| 0 <= j < index ==> #[trigger] output@[j] == avail[j / (channels as int)],
                        forall|j: int| index <= j < index + i ==> #[trigger] output@[j] == item,
                    decreases channels - i,
                {
                    output[index + i] = item;
                    i = i + 1;
                }
                proof {
                    assert forall|j: int| 0 <= j < index + channels implies #[trigger] output@[j]
                        == avail[j / (channels as int)] by {
                        if j >= index {
                            lemma_frame_of(j, k, channels as int);
                        }
                    }
                }
                self.pos = self.pos + 1;
                index = index + channels;
                proof {
                    let old_rest = avail.skip(k);
                    k = k + 1;
                    assert(index == k * channels) by (nonlinear_arith)
                        requires index == (k - 1) * channels + channels;
                    assert(self.view() =~= avail.skip(k)) by {
                        assert(old_rest.drop_first() =~= avail.skip(k));
                        assert(self.current@.skip(self.pos as int) =~= self.current@.skip(
                            self.pos - 1,
                        ).drop_first());
                    }
                }
            } else {
                let ghost before = self.pending@;
                match self.pending.pop_front() {
                    Some(chunk) => {
                        self.current = chunk;
                        self.pos = 0;
                        proof {
                            assert(before.drop_first() =~= self.pending@);
                            assert(self.current@.skip(0) =~= self.current@);
                        }
                    },
                    None => {
                        proof {
                            assert(before =~= Seq::<Vec<i16>>::empty());
                            assert(avail.skip(k).len() == 0);
                            lemma_short_read(k, channels as int, index as int, n as int, avail.len() as int);
                        }
                        Self::silence(output);
                        self.current = Vec::new();
                        self.pos = 0;
                        assert(self.view() =~= Seq::<i16>::empty());
                        break;
                    },
                }
            }
        }
    }

    /// Drops every queued sample.
    fn drain(&mut self)
        ensures
            final(self).wf(),
            final(self).view() == Seq::<i16>::empty(),
    {
        self.pending = VecDeque::new();
        self.current = Vec::new();
        self.pos = 0;
        assert(self.view() =~= Seq::<i16>::empty());
    }

    /// Writes silence over the whole buffer.
    fn silence(output: &mut [i16])
        ensures
            final(output)@.len() == old(output)@.len(),
            forall|j: int| 0 <= j < old(output)@.len() ==> #[trigger] final(output)@[j] == 0,
    {
        let n = output.len();
        let mut i: usize = 0;
        while i < n
            invariant
                n == output@.len(),
                i <= n,
                forall|j: int| 0 <= j < i ==> #[trigger] output@[j] == 0,
            decreases n - i,
        {
            output[i] = 0;
            i = i + 1;
        }
    }
}

/// A sample at position `j` of a buffer of frames of `c` channels belongs to
/// frame `j / c`.
proof fn lemma_frame_of(j: int, k: int, c: int)
    requires
        c > 0,
        k * c <= j < k * c + c,
    ensures
        j / c == k,
{
    assert(j / c == k) by (nonlinear_arith)
        requires
            c > 0,
            k * c <= j < k * c + c,
    ;
}

/// The frame after the `k` first ones still fits in the buffer of `n`
/// samples, either because the buffer holds whole frames or because the
/// `a` available samples do not fill it.
proof fn lemma_next_frame_fits(k: int, c: int, n: int, a: int)
    requires
        c > 0,
        0 <= k < a,
        k * c < n,
        a * c >= n ==> n % c == 0,
    ensures
        k * c + c <= n,
{
    if a * c >= n {
        assert(k * c + c <= n) by (nonlinear_arith)
            requires
                c > 0,
                k * c < n,
                n % c == 0,
        {
            let q = n / c;
            assert(n == q * c);
            assert(k < q);
            assert((k + 1) * c <= q * c);
        }
    } else {
        assert(k * c + c <= a * c) by (nonlinear_arith)
            requires
                c > 0,
                k + 1 <= a,
        ;
    }
}

/// A read that ended with `k` frames written over the whole buffer took
/// `n / c` samples, and it was served.
proof fn lemma_whole_frames(k: int, c: int, n: int, a: int)
    requires
        c > 0,
        k * c == n,
        0 <= k <= a,
    ensures
        k == n / c,
        a * c >= n,
{
    assert(k == n / c && a * c >= n) by (nonlinear_arith)
        requires
            c > 0,
            k * c == n,
            0 <= k <= a,
    ;
}

/// A read that ran out of samples after `k` frames, short of the buffer's
/// end, was not served.
proof fn lemma_short_read(k: int, c: int, index: int, n: int, a: int)
    requires
        c > 0,
        index == k * c,
        index < n,
        k == a,
    ensures
        a * c < n,
{
}

} // verus!
