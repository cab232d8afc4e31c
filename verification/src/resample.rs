//! Taking one channel out of interleaved audio, the step before the sample
//! rate conversion of the audio resampler.

use vstd::prelude::*;

verus! {

/// The number of frames of `len` interleaved samples over `channels`
/// channels, a last partial frame included.
pub open spec fn frame_count(len: nat, channels: nat) -> nat {
    ((len + channels - 1) / (channels as int)) as nat
}

/// The first channel of the interleaved samples `s`: the first sample of each
/// frame of `channels` samples.
pub open spec fn first_channel_of(s: Seq<i16>, channels: nat) -> Seq<i16> {
    Seq::new(frame_count(s.len(), channels), |i: int| s[i * channels])
}

/// Frame `k` starts inside the buffer exactly when `k` is below the frame
/// count.
proof fn lemma_frame_start(k: int, c: int, len: int)
    requires
        c > 0,
        k >= 0,
        len >= 0,
    ensures
        k * c < len <==> k < (len + c - 1) / c,
{
    assert(k * c < len <==> k < (len + c - 1) / c) by (nonlinear_arith)
        requires
            c > 0,
            k >= 0,
            len >= 0,
    {
        let q = (len + c - 1) / c;
        let r = (len + c - 1) % c;
        assert(len + c - 1 == q * c + r && 0 <= r < c);
        if k < q {
            assert(k * c <= (q - 1) * c);
        } else {
            assert(k * c >= q * c);
        }
    }
}

/// Mono input is its own first channel, so taking it changes nothing.
pub proof fn lemma_first_channel_mono(s: Seq<i16>)
    ensures
        first_channel_of(s, 1) == s,
{
    assert(first_channel_of(s, 1) =~= s);
}

/// The samples of the first channel of `buffer`, which interleaves `channels`
/// channels; a last partial frame still gives its first sample.
pub fn first_channel(buffer: &[i16], channels: usize) -> (r: Vec<i16>)
    requires
        channels > 0,
    ensures
        r@ == first_channel_of(buffer@, channels as nat),
{
    let ghost want = first_channel_of(buffer@, channels as nat);
    let mut r: Vec<i16> = Vec::new();
    let mut index: usize = 0;
    let ghost mut k: int = 0;
    while index < buffer.len()
        invariant
            channels > 0,
            k >= 0,
            index <= buffer@.len(),
            index < buffer@.len() ==> index == k * channels,
            index == buffer@.len() ==> k * channels >= buffer@.len(),
            k <= want.len(),
            want == first_channel_of(buffer@, channels as nat),
            r@ == want.take(k),
        decreases buffer@.len() - index,
    {
        proof {
            lemma_frame_start(k, channels as int, buffer@.len() as int);
        }
        r.push(buffer[index]);
        assert(r@ =~= want.take(k + 1));
        if buffer.len() - index <= channels {
            proof {
                assert((k + 1) * channels == k * channels + channels) by (nonlinear_arith);
            }
            index = buffer.len();
        } else {
            proof {
                assert((k + 1) * channels == k * channels + channels) by (nonlinear_arith);
            }
            index = index + channels;
        }
        proof {
            k = k + 1;
        }
    }
    proof {
        lemma_frame_start(k, channels as int, buffer@.len() as int);
    }
    assert(r@ =~= want);
    r
}

} // verus!
