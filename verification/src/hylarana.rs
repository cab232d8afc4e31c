//! Sender-side descriptions and callbacks of the casting API.

use vstd::prelude::*;

verus! {

/// Graphics back end of a video renderer.
#[derive(Clone, Copy, Debug, PartialEq, Eq, Structural)]
pub enum GraphicsBackend {
    Direct3D11,
    WebGPU,
}

/// Description of the audio encoding.
#[derive(Clone, Copy, Debug, PartialEq, Eq, Structural)]
pub struct AudioDescriptor {
    pub sample_rate: u64,
    pub bit_rate: u64,
}

/// Told when a stream closes.
pub trait AVFrameObserver {
    /// Callback when the sender is closed. This may be because the external
    /// side actively calls the close, or the audio and video packets cannot be
    /// sent (the network is disconnected), etc.
    fn close(&self) {
    }
}

/// The samples per encoded audio frame at `sample_rate`: a tenth of a second,
/// counted in whole milliseconds.
pub open spec fn chunk_samples(sample_rate: u64) -> nat {
    ((sample_rate as usize) as nat / 1000) * 100
}

/// A frame is a tenth of a second of audio, counted in whole milliseconds:
/// it holds a whole number of hundreds of samples, ten frames take no more
/// than a second at the rate, and ten frames and one millisecond more take
/// more than a second.
pub proof fn lemma_chunk_is_tenth_second(sample_rate: u64)
    ensures
        chunk_samples(sample_rate) % 100 == 0,
        chunk_samples(sample_rate) * 10 <= (sample_rate as usize) as nat,
        ((sample_rate as usize) as nat) < chunk_samples(sample_rate) * 10 + 1000,
{
    let r = (sample_rate as usize) as nat;
    let q = r / 1000;
    assert(r == q * 1000 + r % 1000 && r % 1000 < 1000) by (nonlinear_arith)
        requires
            q == r / 1000,
    ;
    assert(chunk_samples(sample_rate) == q * 100);
    assert((q * 100) % 100 == 0) by (nonlinear_arith);
}

/// Gathers captured audio samples into frames of a fixed size for the
/// encoder.
pub struct AudioChunker {
    buffer: Vec<i16>,
    chunk_count: usize,
}

impl AudioChunker {
    /// The samples gathered and not yet given out.
    pub closed spec fn view(&self) -> Seq<i16> {
        self.buffer@
    }

    /// The samples per frame.
    pub closed spec fn chunk_count(&self) -> nat {
        self.chunk_count as nat
    }

    /// A chunker for audio at `sample_rate`, holding nothing.
    pub fn new(sample_rate: u64) -> (r: AudioChunker)
        ensures
            r.view() == Seq::<i16>::empty(),
            r.chunk_count() == chunk_samples(sample_rate),
            r.chunk_count() == ((sample_rate as usize) as nat / 1000) * 100,
    {
        let rate = sample_rate as usize;
        AudioChunker { buffer: Vec::new(), chunk_count: rate / 1000 * 100 }
    }

    /// Gathers `samples`; once a whole frame is gathered, gives out the
    /// oldest frame. At most one frame comes out per call.
    pub fn push(&mut self, samples: &[i16]) -> (r: Option<Vec<i16>>)
        ensures
            final(self).chunk_count() == old(self).chunk_count(),
            ({
                let all = old(self).view() + samples@;
                let n = old(self).chunk_count() as int;
                if all.len() >= n {
                    &&& r matches Some(frame) && frame@ == all.take(n)
                    &&& final(self).view() == all.skip(n)
                } else {
                    &&& r is None
                    &&& final(self).view() == all
                }
            }),
    {
        let mut i: usize = 0;
        let ghost start = self.buffer@;
        while i < samples.len()
            invariant
                i <= samples@.len(),
                self.buffer@ == start + samples@.take(i as int),
                self.chunk_count == old(self).chunk_count,
            decreases samples@.len() - i,
        {
            self.buffer.push(samples[i]);
            i = i + 1;
            assert(self.buffer@ =~= start + samples@.take(i as int));
        }
        assert(samples@.take(i as int) =~= samples@);
        let n = self.chunk_count;
        if self.buffer.len() >= n {
            let ghost all = self.buffer@;
            let mut frame: Vec<i16> = Vec::new();
            let mut rest: Vec<i16> = Vec::new();
            let mut j: usize = 0;
            while j < self.buffer.len()
                invariant
                    j <= all.len(),
                    n <= all.len(),
                    self.buffer@ == all,
                    j <= n ==> frame@ == all.take(j as int) && rest@ == Seq::<i16>::empty(),
                    j > n ==> frame@ == all.take(n as int) && rest@ == all.subrange(n as int, j as int),
                decreases all.len() - j,
            {
                if j < n {
                    frame.push(self.buffer[j]);
                    assert(frame@ =~= all.take(j + 1));
                } else {
                    rest.push(self.buffer[j]);
                    assert(rest@ =~= all.subrange(n as int, j + 1));
                }
                j = j + 1;
            }
            assert(rest@ =~= all.skip(n as int));
            self.buffer = rest;
            Some(frame)
        } else {
            None
        }
    }
}

} // verus!
