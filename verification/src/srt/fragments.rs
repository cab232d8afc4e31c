//! Splitting a message into hashed fragments for an SRT connection, and
//! putting the fragments of a message back together.

use crate::be::{
    be32, be64, get_u32, get_u64, lemma_read_be32, lemma_read_be64, put_u32, put_u64, read32,
    read64,
};
use crate::checksum::{xxh3_64, xxh3_64_of};
use crate::chunk::{
    append_bytes, chunks, concat, lemma_chunks_concat, lemma_concat_append, split_chunks,
};
use crate::multicast::fragments::next64;
use vstd::prelude::*;

verus! {

/// The bytes of a fragment after its hash: the message's sequence number, the
/// message's length, then the piece.
pub open spec fn fragment_body(sequence: u64, size: u32, piece: Seq<u8>) -> Seq<u8> {
    be64(sequence) + be32(size) + piece
}

/// The wire form of a fragment: the XXH3 hash of the body, then the body.
pub open spec fn fragment_wire(sequence: u64, size: u32, piece: Seq<u8>) -> Seq<u8> {
    be64(xxh3_64_of(fragment_body(sequence, size, piece))) + fragment_body(sequence, size, piece)
}

/// The wire forms of the fragments of `data`, cut into pieces of `n` bytes and
/// tagged with message number `sequence`.
pub open spec fn fragments_of(data: Seq<u8>, n: nat, sequence: u64) -> Seq<Seq<u8>> {
    Seq::new(
        chunks(data, n).len(),
        |i: int| fragment_wire(sequence, data.len() as u32, chunks(data, n)[i]),
    )
}

/// Encoder state: the next message number and the datagram size.
pub struct FragmentEncoderView {
    pub sequence: u64,
    pub mtu: nat,
}

pub struct FragmentEncoder {
    packets: Vec<Vec<u8>>,
    sequence: u64,
    mtu: usize,
}

impl View for FragmentEncoder {
    type V = FragmentEncoderView;

    closed spec fn view(&self) -> FragmentEncoderView {
        FragmentEncoderView { sequence: self.sequence, mtu: self.mtu as nat }
    }
}

impl FragmentEncoder {
    pub fn new(mtu: usize) -> (r: FragmentEncoder)
        ensures
            r@ == (FragmentEncoderView { sequence: 0, mtu: mtu as nat }),
    {
        FragmentEncoder { packets: Vec::new(), sequence: 0, mtu }
    }

    /// Cuts `bytes` into fragments that fit the datagram size (20 bytes of it
    /// go to the header) and gives their wire forms; the message takes the
    /// next message number.
    pub fn encode(&mut self, bytes: &[u8]) -> (r: &[Vec<u8>])
        requires
            old(self)@.mtu > 20,
        ensures
            r@.map_values(|p: Vec<u8>| p@) == fragments_of(bytes@, (old(self)@.mtu - 20) as nat, old(self)@.sequence),
            final(self)@ == (FragmentEncoderView {
                sequence: next64(old(self)@.sequence),
                mtu: old(self)@.mtu,
            }),
    {
        let n = self.mtu - 20;
        let pieces = split_chunks(bytes, n);
        let ghost cs = chunks(bytes@, n as nat);
        let ghost want = fragments_of(bytes@, n as nat, self.sequence);
        let size = #[verifier::truncate] (bytes.len() as u32);
        let mut packets: Vec<Vec<u8>> = Vec::new();
        let mut i: usize = 0;
        while i < pieces.len()
            invariant
                i <= pieces@.len(),
                pieces@.len() == cs.len(),
                cs == chunks(bytes@, n as nat),
                forall|j: int| 0 <= j < pieces@.len() ==> #[trigger] pieces@[j]@ == cs[j],
                want == fragments_of(bytes@, n as nat, self.sequence),
                size == bytes@.len() as u32,
                packets@.len() == i,
                forall|j: int| 0 <= j < i ==> #[trigger] packets@[j]@ == want[j],
            decreases pieces@.len() - i,
        {
            let mut body: Vec<u8> = Vec::new();
            put_u64(&mut body, self.sequence);
            put_u32(&mut body, size);
            append_bytes(&mut body, pieces[i].as_slice());
            assert(body@ =~= fragment_body(self.sequence, size, cs[i as int]));
            let hash = xxh3_64(body.as_slice());
            let mut packet: Vec<u8> = Vec::new();
            put_u64(&mut packet, hash);
            append_bytes(&mut packet, body.as_slice());
            assert(want[i as int] == fragment_wire(self.sequence, size, cs[i as int]));
            assert(packet@ =~= want[i as int]);
            packets.push(packet);
            i = i + 1;
        }
        self.sequence = if self.sequence == u64::MAX {
            0
        } else {
            self.sequence + 1
        };
        self.packets = packets;
        assert(self.packets@.map_values(|p: Vec<u8>| p@) =~= want);
        self.packets.as_slice()
    }
}

/// Decoder state: the bytes gathered so far of the current message, its
/// sequence number (-1 before any fragment) and its announced length.
pub struct FragmentDecoderView {
    pub bytes: Seq<u8>,
    pub sequence: int,
    pub size: nat,
}

/// The inputs that decoding reads within bounds: the hash is there, and when
/// it matches, so is the rest of the header.
pub open spec fn fragment_readable(s: Seq<u8>) -> bool {
    &&& s.len() >= 8
    &&& read64(s) == xxh3_64_of(s.skip(8)) ==> s.len() >= 20
}

/// One decoding step on the wire bytes `s`. Bytes whose hash does not match
/// change nothing. A fragment of another message closes the current one, which
/// is given out when it has at least its announced length (cut to that
/// length); the fragment's piece is then gathered.
pub open spec fn decode_step(d: FragmentDecoderView, s: Seq<u8>) -> (FragmentDecoderView, Option<(u64, Seq<u8>)>) {
    if read64(s) != xxh3_64_of(s.skip(8)) {
        (d, None)
    } else {
        let sequence = read64(s.skip(8));
        let size = read32(s.skip(16));
        let switching = sequence as int != d.sequence;
        let out = if switching && d.bytes.len() > 0 && d.bytes.len() >= d.size {
            Some((d.sequence as u64, d.bytes.take(d.size as int)))
        } else {
            None
        };
        let kept = if switching {
            Seq::<u8>::empty()
        } else {
            d.bytes
        };
        (
            FragmentDecoderView {
                bytes: kept + s.skip(20),
                sequence: sequence as int,
                size: size as nat,
            },
            out,
        )
    }
}

pub struct FragmentDecoder {
    bytes: Vec<u8>,
    sequence: i128,
    size: usize,
}

impl View for FragmentDecoder {
    type V = FragmentDecoderView;

    closed spec fn view(&self) -> FragmentDecoderView {
        FragmentDecoderView { bytes: self.bytes@, sequence: self.sequence as int, size: self.size as nat }
    }
}

impl FragmentDecoder {
    #[verifier::type_invariant]
    closed spec fn inv(&self) -> bool {
        &&& -1 <= self.sequence <= u64::MAX
        &&& self.sequence == -1 ==> self.bytes@.len() == 0
    }

    pub fn new() -> (r: FragmentDecoder)
        ensures
            r@ == (FragmentDecoderView { bytes: Seq::<u8>::empty(), sequence: -1, size: 0 }),
    {
        FragmentDecoder { bytes: Vec::new(), sequence: -1, size: 0 }
    }

    /// Takes in the wire bytes of one fragment; gives out the previous message
    /// when this fragment belongs to another one.
    pub fn decode(&mut self, bytes: &[u8]) -> (r: Option<(u64, Vec<u8>)>)
        requires
            fragment_readable(bytes@),
        ensures
            decode_step(old(self)@, bytes@) == (
                final(self)@,
                match r {
                    Some((s, b)) => Some((s, b@)),
                    None => None,
                },
            ),
    {
        proof {
            use_type_invariant(&*self);
        }
        let hash = get_u64(bytes, 0);
        let rest = vstd::slice::slice_subrange(bytes, 8, bytes.len());
        assert(rest@ =~= bytes@.skip(8));
        if hash != xxh3_64(rest) {
            return None;
        }
        let sequence = get_u64(bytes, 8);
        let size = get_u32(bytes, 16) as usize;
        let mut gathered: Vec<u8> = Vec::new();
        std::mem::swap(&mut gathered, &mut self.bytes);
        let mut result: Option<(u64, Vec<u8>)> = None;
        if sequence as i128 != self.sequence {
            if gathered.len() > 0 && gathered.len() >= self.size {
                let mut out: Vec<u8> = Vec::new();
                append_bytes(&mut out, vstd::slice::slice_subrange(gathered.as_slice(), 0, self.size));
                assert(out@ =~= gathered@.take(self.size as int));
                result = Some((self.sequence as u64, out));
            }
            gathered = Vec::new();
        }
        append_bytes(&mut gathered, vstd::slice::slice_subrange(bytes, 20, bytes.len()));
        assert(bytes@.subrange(20, bytes@.len() as int) =~= bytes@.skip(20));
        assert(Seq::<u8>::empty() + bytes@.skip(20) =~= bytes@.skip(20));
        self.sequence = sequence as i128;
        self.size = size;
        self.bytes = gathered;
        result
    }

    /// Takes in any bytes: `None`, with the decoder unchanged, when they are
    /// too short for their header; otherwise what `decode` gives.
    pub fn try_decode(&mut self, bytes: &[u8]) -> (r: Option<Option<(u64, Vec<u8>)>>)
        ensures
            r is None <==> !fragment_readable(bytes@),
            r is None ==> final(self)@ == old(self)@,
            r matches Some(o) ==> decode_step(old(self)@, bytes@) == (
                final(self)@,
                match o {
                    Some((s, b)) => Some((s, b@)),
                    None => None,
                },
            ),
    {
        if bytes.len() < 8 {
            return None;
        }
        if bytes.len() < 20 {
            let hash = get_u64(bytes, 0);
            let rest = vstd::slice::slice_subrange(bytes, 8, bytes.len());
            assert(rest@ =~= bytes@.skip(8));
            if hash == xxh3_64(rest) {
                return None;
            }
        }
        Some(self.decode(bytes))
    }
}

/// Feeding the wire bytes `ps` to a decoder in state `d`, in order: the final
/// state and what each step gave out.
pub open spec fn feed(d: FragmentDecoderView, ps: Seq<Seq<u8>>) -> (FragmentDecoderView, Seq<Option<(u64, Seq<u8>)>>)
    decreases ps.len(),
{
    if ps.len() == 0 {
        (d, seq![])
    } else {
        let (d1, outs) = feed(d, ps.drop_last());
        let (d2, o) = decode_step(d1, ps.last());
        (d2, outs.push(o))
    }
}

/// Reading the wire form of a fragment gives back its fields.
pub proof fn lemma_fragment_wire_fields(sequence: u64, size: u32, piece: Seq<u8>)
    ensures
        fragment_readable(fragment_wire(sequence, size, piece)),
        read64(fragment_wire(sequence, size, piece)) == xxh3_64_of(
            fragment_wire(sequence, size, piece).skip(8),
        ),
        read64(fragment_wire(sequence, size, piece).skip(8)) == sequence,
        read32(fragment_wire(sequence, size, piece).skip(16)) == size,
        fragment_wire(sequence, size, piece).skip(20) == piece,
{
    let body = fragment_body(sequence, size, piece);
    let s = fragment_wire(sequence, size, piece);
    lemma_read_be64(xxh3_64_of(body), body);
    assert(s.skip(8) =~= body);
    assert(s.skip(8) =~= be64(sequence) + (be32(size) + piece));
    lemma_read_be64(sequence, be32(size) + piece);
    assert(s.skip(16) =~= be32(size) + piece);
    lemma_read_be32(size, piece);
    assert(s.skip(20) =~= piece);
}

proof fn lemma_feed_prefix(d: FragmentDecoderView, data: Seq<u8>, n: nat, sequence: u64, j: int)
    requires
        n > 0,
        d.sequence != sequence as int,
        0 < data.len() < 0x1_0000_0000,
        1 <= j <= chunks(data, n).len(),
    ensures
        feed(d, fragments_of(data, n, sequence).take(j)).0 == (FragmentDecoderView {
            bytes: concat(chunks(data, n).take(j)),
            sequence: sequence as int,
            size: data.len(),
        }),
        feed(d, fragments_of(data, n, sequence).take(j)).1.len() == j,
        forall|i: int| 1 <= i < j ==> #[trigger] feed(d, fragments_of(data, n, sequence).take(j)).1[i] is None,
    decreases j,
{
    let ws = fragments_of(data, n, sequence);
    let cs = chunks(data, n);
    let fs = ws.take(j);
    assert(fs.drop_last() =~= ws.take(j - 1));
    assert(fs.last() == ws[j - 1]);
    assert(ws[j - 1] == fragment_wire(sequence, data.len() as u32, cs[j - 1]));
    lemma_fragment_wire_fields(sequence, data.len() as u32, cs[j - 1]);
    assert((data.len() as u32) as nat == data.len());
    let before = feed(d, fs.drop_last());
    let step = decode_step(before.0, fs.last());
    assert(feed(d, fs) == (step.0, before.1.push(step.1)));
    if j == 1 {
        assert(ws.take(0) =~= Seq::<Seq<u8>>::empty());
        assert(before == (d, Seq::<Option<(u64, Seq<u8>)>>::empty()));
        assert(cs.take(1) =~= seq![cs[0]]);
        assert(cs.take(1).drop_first() =~= Seq::<Seq<u8>>::empty());
        assert(concat(cs.take(1).drop_first()) == Seq::<u8>::empty());
        assert(concat(cs.take(1)) =~= cs[0]);
        assert(Seq::<u8>::empty() + cs[0] =~= cs[0]);
    } else {
        lemma_feed_prefix(d, data, n, sequence, j - 1);
        lemma_concat_append(cs.take(j - 1), seq![cs[j - 1]]);
        assert(cs.take(j - 1) + seq![cs[j - 1]] =~= cs.take(j));
        assert(seq![cs[j - 1]].drop_first() =~= Seq::<Seq<u8>>::empty());
        assert(concat(seq![cs[j - 1]].drop_first()) == Seq::<u8>::empty());
        assert(concat(seq![cs[j - 1]]) =~= cs[j - 1]);
        assert forall|i: int| 1 <= i < j implies #[trigger] feed(d, fs).1[i] is None by {
            if i < j - 1 {
                assert(feed(d, fs).1[i] == before.1[i]);
            }
        }
    }
}

/// Reassembly: once every fragment of a message has reached a decoder, in
/// order, the first fragment of another message makes the decoder give out
/// the whole message; no fragment of the message before that gives anything
/// out.
pub proof fn lemma_reassembly(
    d: FragmentDecoderView,
    data: Seq<u8>,
    n: nat,
    sequence: u64,
    next_sequence: u64,
    next_size: u32,
    next_piece: Seq<u8>,
)
    requires
        n > 0,
        d.sequence != sequence as int,
        0 < data.len() < 0x1_0000_0000,
        next_sequence != sequence,
    ensures
        ({
            let outs = feed(
                d,
                fragments_of(data, n, sequence).push(fragment_wire(next_sequence, next_size, next_piece)),
            ).1;
            &&& outs.len() == chunks(data, n).len() + 1
            &&& outs.last() == Some((sequence, data))
            &&& forall|i: int| 1 <= i < chunks(data, n).len() ==> #[trigger] outs[i] is None
        }),
{
    let ws = fragments_of(data, n, sequence);
    let cs = chunks(data, n);
    lemma_chunks_concat(data, n);
    let k = cs.len() as int;
    lemma_feed_prefix(d, data, n, sequence, k);
    assert(ws.take(k) =~= ws);
    assert(cs.take(k) =~= cs);
    let next = fragment_wire(next_sequence, next_size, next_piece);
    lemma_fragment_wire_fields(next_sequence, next_size, next_piece);
    let all = ws.push(next);
    assert(all.drop_last() =~= ws);
    assert(data.take(data.len() as int) =~= data);
}

} // verus!
