//! Splitting a message into hashed fragments that fit a datagram, and putting
//! the fragments of a message back together.

use crate::be::{
    be32, be64, get_u32, get_u64, lemma_read_be32, lemma_read_be64, put_u32, put_u64, read32,
    read64,
};
use crate::checksum::{xxh3_64, xxh3_64_of};
use crate::chunk::{append_bytes, chunks, concat, lemma_chunks_concat, lemma_concat_append, split_chunks};
use vstd::prelude::*;

verus! {

/// The bytes of a fragment after its hash: the fragment's own sequence number,
/// the message's sequence number, the message's length, then the piece.
pub open spec fn fragment_body(chunk_sequence: u64, sequence: u64, size: u32, piece: Seq<u8>) -> Seq<u8> {
    be64(chunk_sequence) + be64(sequence) + be32(size) + piece
}

/// The wire form of a fragment: the XXH3 hash of the body, then the body.
pub open spec fn fragment_wire(chunk_sequence: u64, sequence: u64, size: u32, piece: Seq<u8>) -> Seq<u8> {
    be64(xxh3_64_of(fragment_body(chunk_sequence, sequence, size, piece))) + fragment_body(
        chunk_sequence,
        sequence,
        size,
        piece,
    )
}

/// A fragment read from the wire, as plain values.
pub struct FragmentView {
    pub chunk_sequence: u64,
    pub sequence: u64,
    pub size: nat,
    pub bytes: Seq<u8>,
}

/// The fragment that the bytes `s` carry, or `Err` when the hash does not
/// match.
pub open spec fn decode_fragment(s: Seq<u8>) -> Result<FragmentView, ()> {
    if read64(s) != xxh3_64_of(s.skip(8)) {
        Err(())
    } else {
        Ok(
            FragmentView {
                chunk_sequence: read64(s.skip(8)),
                sequence: read64(s.skip(16)),
                size: read32(s.skip(24)) as nat,
                bytes: s.skip(28),
            },
        )
    }
}

/// The inputs that reading a fragment reads within bounds: the hash is there,
/// and when it matches, so is the rest of the header.
pub open spec fn fragment_readable(s: Seq<u8>) -> bool {
    &&& s.len() >= 8
    &&& read64(s) == xxh3_64_of(s.skip(8)) ==> s.len() >= 28
}

/// The data a fragment's hash did not match.
pub enum FragmentError {
    InvalidData,
}

pub struct Fragment {
    pub chunk_sequence: u64,
    pub sequence: u64,
    pub size: usize,
    pub bytes: Vec<u8>,
}

impl View for Fragment {
    type V = FragmentView;

    open spec fn view(&self) -> FragmentView {
        FragmentView {
            chunk_sequence: self.chunk_sequence,
            sequence: self.sequence,
            size: self.size as nat,
            bytes: self.bytes@,
        }
    }
}

impl Fragment {
    /// Reads a fragment from its wire form.
    pub fn try_from(bytes: &[u8]) -> (r: Result<Fragment, FragmentError>)
        requires
            fragment_readable(bytes@),
        ensures
            r matches Ok(f) ==> decode_fragment(bytes@) == Ok::<FragmentView, ()>(f@),
            r is Err <==> decode_fragment(bytes@) is Err,
    {
        let hash = get_u64(bytes, 0);
        let rest = vstd::slice::slice_subrange(bytes, 8, bytes.len());
        assert(rest@ =~= bytes@.skip(8));
        if hash == xxh3_64(rest) {
            let chunk_sequence = get_u64(bytes, 8);
            let sequence = get_u64(bytes, 16);
            let size = get_u32(bytes, 24) as usize;
            let mut piece: Vec<u8> = Vec::new();
            append_bytes(&mut piece, vstd::slice::slice_subrange(bytes, 28, bytes.len()));
            assert(piece@ =~= bytes@.skip(28));
            Ok(Fragment { chunk_sequence, sequence, size, bytes: piece })
        } else {
            Err(FragmentError::InvalidData)
        }
    }

    /// Reads a fragment from any input: `None` for an input too short for its
    /// header, otherwise what `try_from` gives.
    pub fn try_decode(bytes: &[u8]) -> (r: Option<Result<Fragment, FragmentError>>)
        ensures
            r is None <==> !fragment_readable(bytes@),
            r matches Some(Ok(f)) ==> decode_fragment(bytes@) == Ok::<FragmentView, ()>(f@),
            r matches Some(Err(_)) ==> decode_fragment(bytes@) is Err,
    {
        if bytes.len() < 8 {
            return None;
        }
        if bytes.len() < 28 {
            let hash = get_u64(bytes, 0);
            let rest = vstd::slice::slice_subrange(bytes, 8, bytes.len());
            assert(rest@ =~= bytes@.skip(8));
            if hash == xxh3_64(rest) {
                return None;
            }
        }
        Some(Fragment::try_from(bytes))
    }
}

/// `x` advanced by one, wrapping from the largest value to zero.
pub open spec fn next64(x: u64) -> u64 {
    if x == u64::MAX {
        0
    } else {
        (x + 1) as u64
    }
}

/// `x` advanced by `n`, wrapping around.
pub open spec fn advance64(x: u64, n: nat) -> u64 {
    ((x + n) % 0x1_0000_0000_0000_0000) as u64
}

proof fn lemma_advance64_next(x: u64, n: nat)
    ensures
        next64(advance64(x, n)) == advance64(x, n + 1),
        advance64(x, 0) == x,
{
    let m: int = 0x1_0000_0000_0000_0000;
    let a = (x + n) % m;
    assert(0 <= a < m);
    assert((x + n + 1) % m == if a == m - 1 { 0 } else { a + 1 }) by (nonlinear_arith)
        requires
            a == (x + n) % m,
            m > 0,
            0 <= a < m,
    ;
}

/// The wire forms of the fragments of `data`, cut into pieces of `n` bytes,
/// numbered from `first` and tagged with message number `sequence`.
pub open spec fn fragments_of(data: Seq<u8>, n: nat, first: u64, sequence: u64) -> Seq<Seq<u8>> {
    Seq::new(
        chunks(data, n).len(),
        |i: int|
            fragment_wire(
                advance64(first, i as nat),
                sequence,
                data.len() as u32,
                chunks(data, n)[i],
            ),
    )
}

/// Encoder state: the next fragment number, the next message number and the
/// datagram size.
pub struct FragmentEncoderView {
    pub chunk_sequence: u64,
    pub sequence: u64,
    pub mtu: nat,
}

pub struct FragmentEncoder {
    packets: Vec<Vec<u8>>,
    chunk_sequence: u64,
    sequence: u64,
    mtu: usize,
}

impl View for FragmentEncoder {
    type V = FragmentEncoderView;

    closed spec fn view(&self) -> FragmentEncoderView {
        FragmentEncoderView {
            chunk_sequence: self.chunk_sequence,
            sequence: self.sequence,
            mtu: self.mtu as nat,
        }
    }
}

impl FragmentEncoder {
    pub fn new(mtu: usize) -> (r: FragmentEncoder)
        ensures
            r@ == (FragmentEncoderView { chunk_sequence: 0, sequence: 0, mtu: mtu as nat }),
    {
        FragmentEncoder { packets: Vec::new(), chunk_sequence: 0, sequence: 0, mtu }
    }

    /// Cuts `bytes` into fragments that fit the datagram size (28 bytes of it
    /// go to the header) and gives their wire forms. Each fragment takes the
    /// next fragment number; the message takes the next message number.
    pub fn encode(&mut self, bytes: &[u8]) -> (r: &[Vec<u8>])
        requires
            old(self)@.mtu > 28,
        ensures
            r@.map_values(|p: Vec<u8>| p@) == fragments_of(
                bytes@,
                (old(self)@.mtu - 28) as nat,
                old(self)@.chunk_sequence,
                old(self)@.sequence,
            ),
            final(self)@ == (FragmentEncoderView {
                chunk_sequence: advance64(
                    old(self)@.chunk_sequence,
                    chunks(bytes@, (old(self)@.mtu - 28) as nat).len(),
                ),
                sequence: next64(old(self)@.sequence),
                mtu: old(self)@.mtu,
            }),
    {
        let n = self.mtu - 28;
        let pieces = split_chunks(bytes, n);
        let ghost cs = chunks(bytes@, n as nat);
        let ghost first = self.chunk_sequence;
        let ghost want = fragments_of(bytes@, n as nat, first, self.sequence);
        let size = #[verifier::truncate] (bytes.len() as u32);
        let ghost seq0 = self.sequence;
        let mut packets: Vec<Vec<u8>> = Vec::new();
        let mut i: usize = 0;
        proof {
            lemma_advance64_next(first, 0);
        }
        while i < pieces.len()
            invariant
                i <= pieces@.len(),
                pieces@.len() == cs.len(),
                cs == chunks(bytes@, n as nat),
                forall|j: int| 0 <= j < pieces@.len() ==> #[trigger] pieces@[j]@ == cs[j],
                want == fragments_of(bytes@, n as nat, first, seq0),
                self.sequence == seq0,
                self.mtu == n + 28,
                want.len() == cs.len(),
                size == bytes@.len() as u32,
                self.chunk_sequence == advance64(first, i as nat),
                packets@.len() == i,
                forall|j: int| 0 <= j < i ==> #[trigger] packets@[j]@ == want[j],
            decreases pieces@.len() - i,
        {
            let mut body: Vec<u8> = Vec::new();
            put_u64(&mut body, self.chunk_sequence);
            put_u64(&mut body, self.sequence);
            put_u32(&mut body, size);
            append_bytes(&mut body, pieces[i].as_slice());
            assert(body@ =~= fragment_body(self.chunk_sequence, seq0, size, cs[i as int]));
            let hash = xxh3_64(body.as_slice());
            let mut packet: Vec<u8> = Vec::new();
            put_u64(&mut packet, hash);
            append_bytes(&mut packet, body.as_slice());
            assert(i < want.len());
            assert(want[i as int] == fragment_wire(
                advance64(first, i as nat),
                seq0,
                bytes@.len() as u32,
                chunks(bytes@, n as nat)[i as int],
            ));
            assert(want[i as int] == fragment_wire(advance64(first, i as nat), seq0, size, cs[i as int]));
            assert(packet@ =~= want[i as int]);
            packets.push(packet);
            proof {
                lemma_advance64_next(first, i as nat);
            }
            self.chunk_sequence = if self.chunk_sequence == u64::MAX {
                0
            } else {
                self.chunk_sequence + 1
            };
            i = i + 1;
        }
        self.sequence = if self.sequence == u64::MAX {
            0
        } else {
            self.sequence + 1
        };
        self.packets = packets;
        assert(self.packets@.map_values(|p: Vec<u8>| p@) =~= want);
        self.packets.as_slice()
    }
}

/// Decoder state: the bytes gathered so far of the current message, its
/// sequence number (-1 before any fragment) and its announced length.
pub struct FragmentDecoderView {
    pub bytes: Seq<u8>,
    pub sequence: int,
    pub size: nat,
}

/// One step of reassembly: a fragment of another message closes the current
/// one, which is given out when it has at least its announced length (cut to
/// that length); the fragment's bytes are then gathered.
pub open spec fn decode_step(d: FragmentDecoderView, f: FragmentView) -> (FragmentDecoderView, Option<(u64, Seq<u8>)>) {
    let switching = f.sequence as int != d.sequence;
    let out = if switching && d.bytes.len() > 0 && d.bytes.len() >= d.size {
        Some((d.sequence as u64, d.bytes.take(d.size as int)))
    } else {
        None
    };
    let kept = if switching {
        Seq::<u8>::empty()
    } else {
        d.bytes
    };
    (FragmentDecoderView { bytes: kept + f.bytes, sequence: f.sequence as int, size: f.size }, out)
}

pub struct FragmentDecoder {
    bytes: Vec<u8>,
    sequence: i128,
    size: usize,
}

impl View for FragmentDecoder {
    type V = FragmentDecoderView;

    closed spec fn view(&self) -> FragmentDecoderView {
        FragmentDecoderView { bytes: self.bytes@, sequence: self.sequence as int, size: self.size as nat }
    }
}

impl FragmentDecoder {
    #[verifier::type_invariant]
    closed spec fn inv(&self) -> bool {
        &&& -1 <= self.sequence <= u64::MAX
        &&& self.sequence == -1 ==> self.bytes@.len() == 0
    }

    pub fn new() -> (r: FragmentDecoder)
        ensures
            r@ == (FragmentDecoderView { bytes: Seq::<u8>::empty(), sequence: -1, size: 0 }),
    {
        FragmentDecoder { bytes: Vec::new(), sequence: -1, size: 0 }
    }

    /// Gathers a fragment; gives out the previous message when this fragment
    /// belongs to another one.
    pub fn decode(&mut self, chunk: Fragment) -> (r: Option<(u64, Vec<u8>)>)
        ensures
            decode_step(old(self)@, chunk@) == (
                final(self)@,
                match r {
                    Some((s, b)) => Some((s, b@)),
                    None => None,
                },
            ),
    {
        proof {
            use_type_invariant(&*self);
        }
        let mut bytes: Vec<u8> = Vec::new();
        std::mem::swap(&mut bytes, &mut self.bytes);
        let mut result: Option<(u64, Vec<u8>)> = None;
        if chunk.sequence as i128 != self.sequence {
            if bytes.len() > 0 && bytes.len() >= self.size {
                let mut out: Vec<u8> = Vec::new();
                append_bytes(&mut out, vstd::slice::slice_subrange(bytes.as_slice(), 0, self.size));
                assert(out@ =~= bytes@.take(self.size as int));
                result = Some((self.sequence as u64, out));
            }
            bytes = Vec::new();
        }
        append_bytes(&mut bytes, chunk.bytes.as_slice());
        self.sequence = chunk.sequence as i128;
        self.size = chunk.size;
        self.bytes = bytes;
        assert(Seq::<u8>::empty() + chunk.bytes@ =~= chunk.bytes@);
        result
    }
}

/// Reading the wire form of a fragment gives back its fields.
pub proof fn lemma_fragment_roundtrip(chunk_sequence: u64, sequence: u64, size: u32, piece: Seq<u8>)
    ensures
        fragment_readable(fragment_wire(chunk_sequence, sequence, size, piece)),
        decode_fragment(fragment_wire(chunk_sequence, sequence, size, piece)) == Ok::<
            FragmentView,
            (),
        >(FragmentView { chunk_sequence, sequence, size: size as nat, bytes: piece }),
{
    let body = fragment_body(chunk_sequence, sequence, size, piece);
    let s = fragment_wire(chunk_sequence, sequence, size, piece);
    lemma_read_be64(xxh3_64_of(body), body);
    assert(s.skip(8) =~= body);
    assert(s.skip(8) =~= be64(chunk_sequence) + (be64(sequence) + be32(size) + piece));
    lemma_read_be64(chunk_sequence, be64(sequence) + be32(size) + piece);
    assert(s.skip(16) =~= be64(sequence) + (be32(size) + piece));
    lemma_read_be64(sequence, be32(size) + piece);
    assert(s.skip(24) =~= be32(size) + piece);
    lemma_read_be32(size, piece);
    assert(s.skip(28) =~= piece);
}

/// The fragments of `data` as reading their wire forms gives them.
pub open spec fn message_fragments(data: Seq<u8>, n: nat, first: u64, sequence: u64) -> Seq<FragmentView> {
    Seq::new(
        chunks(data, n).len(),
        |i: int|
            FragmentView {
                chunk_sequence: advance64(first, i as nat),
                sequence,
                size: (data.len() as u32) as nat,
                bytes: chunks(data, n)[i],
            },
    )
}

/// Each wire form that the encoder gives reads back as the matching fragment.
pub proof fn lemma_fragments_decode(data: Seq<u8>, n: nat, first: u64, sequence: u64)
    ensures
        fragments_of(data, n, first, sequence).len() == message_fragments(data, n, first, sequence).len(),
        forall|i: int|
            0 <= i < fragments_of(data, n, first, sequence).len() ==> {
                &&& fragment_readable(#[trigger] fragments_of(data, n, first, sequence)[i])
                &&& decode_fragment(fragments_of(data, n, first, sequence)[i]) == Ok::<
                    FragmentView,
                    (),
                >(message_fragments(data, n, first, sequence)[i])
            },
{
    assert forall|i: int| 0 <= i < fragments_of(data, n, first, sequence).len() implies {
        &&& fragment_readable(#[trigger] fragments_of(data, n, first, sequence)[i])
        &&& decode_fragment(fragments_of(data, n, first, sequence)[i]) == Ok::<FragmentView, ()>(
            message_fragments(data, n, first, sequence)[i],
        )
    } by {
        lemma_fragment_roundtrip(advance64(first, i as nat), sequence, data.len() as u32, chunks(data, n)[i]);
    }
}

/// Feeding the fragments `fs` to a decoder in state `d`, in order: the final
/// state and what each step gave out.
pub open spec fn feed(d: FragmentDecoderView, fs: Seq<FragmentView>) -> (FragmentDecoderView, Seq<Option<(u64, Seq<u8>)>>)
    decreases fs.len(),
{
    if fs.len() == 0 {
        (d, seq![])
    } else {
        let (d1, outs) = feed(d, fs.drop_last());
        let (d2, o) = decode_step(d1, fs.last());
        (d2, outs.push(o))
    }
}

proof fn lemma_feed_prefix(d: FragmentDecoderView, data: Seq<u8>, n: nat, first: u64, sequence: u64, j: int)
    requires
        n > 0,
        d.sequence != sequence as int,
        0 < data.len() < 0x1_0000_0000,
        1 <= j <= chunks(data, n).len(),
    ensures
        feed(d, message_fragments(data, n, first, sequence).take(j)).0 == (FragmentDecoderView {
            bytes: concat(chunks(data, n).take(j)),
            sequence: sequence as int,
            size: data.len(),
        }),
        feed(d, message_fragments(data, n, first, sequence).take(j)).1.len() == j,
        forall|i: int| 1 <= i < j ==> #[trigger] feed(d, message_fragments(data, n, first, sequence).take(j)).1[i] is None,
    decreases j,
{
    let mf = message_fragments(data, n, first, sequence);
    let cs = chunks(data, n);
    let fs = mf.take(j);
    assert(fs.drop_last() =~= mf.take(j - 1));
    assert(fs.last() == mf[j - 1]);
    assert((data.len() as u32) as nat == data.len());
    let before = feed(d, fs.drop_last());
    let step = decode_step(before.0, fs.last());
    assert(feed(d, fs) == (step.0, before.1.push(step.1)));
    assert(fs.last().sequence == sequence);
    assert(fs.last().bytes == cs[j - 1]);
    if j == 1 {
        assert(mf.take(0) =~= Seq::<FragmentView>::empty());
        assert(before == (d, Seq::<Option<(u64, Seq<u8>)>>::empty()));
        assert(cs.take(1) =~= seq![cs[0]]);
        assert(cs.take(1).drop_first() =~= Seq::<Seq<u8>>::empty());
        assert(concat(cs.take(1).drop_first()) == Seq::<u8>::empty());
        assert(concat(cs.take(1)) =~= cs[0]);
        assert(Seq::<u8>::empty() + cs[0] =~= cs[0]);
    } else {
        lemma_feed_prefix(d, data, n, first, sequence, j - 1);
        crate::chunk::lemma_concat_append(cs.take(j - 1), seq![cs[j - 1]]);
        assert(cs.take(j - 1) + seq![cs[j - 1]] =~= cs.take(j));
        assert(seq![cs[j - 1]].drop_first() =~= Seq::<Seq<u8>>::empty());
        assert(concat(seq![cs[j - 1]].drop_first()) == Seq::<u8>::empty());
        assert(concat(seq![cs[j - 1]]) =~= cs[j - 1]);
        let prev = feed(d, mf.take(j - 1));
        assert forall|i: int| 1 <= i < j implies #[trigger] feed(d, fs).1[i] is None by {
            if i < j - 1 {
                assert(feed(d, fs).1[i] == prev.1[i]);
            }
        }
    }
}

/// Reassembly: once every fragment of a message has reached a decoder, in
/// order, the first fragment of another message makes the decoder give out
/// the whole message; no fragment of the message before that gives anything
/// out.
pub proof fn lemma_reassembly(
    d: FragmentDecoderView,
    data: Seq<u8>,
    n: nat,
    first: u64,
    sequence: u64,
    next: FragmentView,
)
    requires
        n > 0,
        d.sequence != sequence as int,
        0 < data.len() < 0x1_0000_0000,
        next.sequence != sequence,
    ensures
        ({
            let outs = feed(d, message_fragments(data, n, first, sequence).push(next)).1;
            &&& outs.len() == chunks(data, n).len() + 1
            &&& outs.last() == Some((sequence, data))
            &&& forall|i: int| 1 <= i < chunks(data, n).len() ==> #[trigger] outs[i] is None
        }),
{
    let mf = message_fragments(data, n, first, sequence);
    let cs = chunks(data, n);
    lemma_chunks_concat(data, n);
    let k = cs.len() as int;
    lemma_feed_prefix(d, data, n, first, sequence, k);
    assert(mf.take(k) =~= mf);
    assert(cs.take(k) =~= cs);
    let all = mf.push(next);
    assert(all.drop_last() =~= mf);
    assert(data.take(data.len() as int) =~= data);
}

/// Joining one more part appends it.
proof fn lemma_concat_push(parts: Seq<Seq<u8>>, last: Seq<u8>)
    ensures
        concat(parts.push(last)) == concat(parts) + last,
{
    lemma_concat_append(parts, seq![last]);
    assert(parts + seq![last] =~= parts.push(last));
    assert(seq![last].drop_first() =~= Seq::<Seq<u8>>::empty());
    assert(concat(seq![last].drop_first()) == Seq::<u8>::empty());
    assert(concat(seq![last]) =~= last);
}

/// Fragments that all belong to message `sequence` of length `size`, fed to a
/// decoder holding another message: the decoder then holds their pieces, the
/// first step gives out what the first fragment makes it give out, and no
/// later step gives anything out.
proof fn lemma_feed_same_message(d: FragmentDecoderView, fs: Seq<FragmentView>, sequence: u64, size: nat)
    requires
        d.sequence != sequence as int,
        fs.len() > 0,
        forall|i: int| 0 <= i < fs.len() ==> (#[trigger] fs[i]).sequence == sequence && fs[i].size == size,
    ensures
        feed(d, fs).0 == (FragmentDecoderView {
            bytes: concat(fs.map_values(|f: FragmentView| f.bytes)),
            sequence: sequence as int,
            size,
        }),
        feed(d, fs).1.len() == fs.len(),
        feed(d, fs).1[0] == decode_step(d, fs[0]).1,
        forall|i: int| 1 <= i < fs.len() ==> #[trigger] feed(d, fs).1[i] is None,
    decreases fs.len(),
{
    let p = fs.drop_last();
    let f = fs.last();
    assert(f == fs[fs.len() - 1]);
    assert(fs.map_values(|x: FragmentView| x.bytes) =~= p.map_values(|x: FragmentView| x.bytes).push(f.bytes));
    lemma_concat_push(p.map_values(|x: FragmentView| x.bytes), f.bytes);
    if p.len() == 0 {
        assert(feed(d, p) == (d, Seq::<Option<(u64, Seq<u8>)>>::empty()));
        assert(p.map_values(|x: FragmentView| x.bytes) =~= Seq::<Seq<u8>>::empty());
        assert(concat(Seq::<Seq<u8>>::empty()) == Seq::<u8>::empty());
        assert(Seq::<u8>::empty() + f.bytes =~= f.bytes);
        assert(fs[0] == f);
    } else {
        assert forall|i: int| 0 <= i < p.len() implies (#[trigger] p[i]).sequence == sequence && p[i].size == size by {
            assert(p[i] == fs[i]);
        }
        lemma_feed_same_message(d, p, sequence, size);
        assert(p[0] == fs[0]);
        let prev = feed(d, p);
        assert forall|i: int| 1 <= i < fs.len() implies #[trigger] feed(d, fs).1[i] is None by {
            if i < p.len() {
                assert(feed(d, fs).1[i] == prev.1[i]);
            }
        }
    }
}

/// The pieces of `data` without the `j`-th are shorter than `data`.
proof fn lemma_missing_piece_shorter(data: Seq<u8>, n: nat, j: int)
    requires
        n > 0,
        0 <= j < chunks(data, n).len(),
    ensures
        concat(chunks(data, n).remove(j)).len() < data.len(),
{
    let cs = chunks(data, n);
    lemma_chunks_concat(data, n);
    let a = cs.take(j);
    let b = cs.skip(j + 1);
    assert(cs.remove(j) =~= a + b);
    assert(cs =~= a + (seq![cs[j]] + b));
    lemma_concat_append(a, b);
    lemma_concat_append(a, seq![cs[j]] + b);
    lemma_concat_append(seq![cs[j]], b);
    assert(seq![cs[j]].drop_first() =~= Seq::<Seq<u8>>::empty());
    assert(concat(seq![cs[j]].drop_first()) == Seq::<u8>::empty());
    assert(concat(seq![cs[j]]) =~= cs[j]);
    assert(cs[j].len() > 0);
}

/// A message with a fragment missing is never given out: feeding the
/// fragments of a message but the `j`-th, then a fragment of another message,
/// to a decoder that holds some other message gives out nothing of that
/// message, whole or in part.
pub proof fn lemma_lost_fragment(
    d: FragmentDecoderView,
    data: Seq<u8>,
    n: nat,
    first: u64,
    sequence: u64,
    j: int,
    next: FragmentView,
)
    requires
        n > 0,
        -1 <= d.sequence <= u64::MAX,
        d.sequence == -1 ==> d.bytes.len() == 0,
        d.sequence != sequence as int,
        0 < data.len() < 0x1_0000_0000,
        next.sequence != sequence,
        0 <= j < chunks(data, n).len(),
    ensures
        ({
            let outs = feed(d, message_fragments(data, n, first, sequence).remove(j).push(next)).1;
            forall|i: int| 0 <= i < outs.len() ==> (#[trigger] outs[i] matches Some(o) ==> o.0 != sequence)
        }),
{
    let mf = message_fragments(data, n, first, sequence);
    let fs = mf.remove(j);
    let all = fs.push(next);
    assert(all.drop_last() =~= fs);
    assert(all.last() == next);
    let outs = feed(d, all).1;
    if fs.len() == 0 {
        assert(feed(d, fs) == (d, Seq::<Option<(u64, Seq<u8>)>>::empty()));
        assert(outs =~= seq![decode_step(d, next).1]);
    } else {
        assert forall|i: int| 0 <= i < fs.len() implies (#[trigger] fs[i]).sequence == sequence
            && fs[i].size == data.len() by {
            if i < j {
                assert(fs[i] == mf[i]);
            } else {
                assert(fs[i] == mf[i + 1]);
            }
        }
        lemma_feed_same_message(d, fs, sequence, data.len());
        assert(fs.map_values(|f: FragmentView| f.bytes) =~= chunks(data, n).remove(j));
        lemma_missing_piece_shorter(data, n, j);
        let prev = feed(d, fs);
        assert forall|i: int| 0 <= i < outs.len() implies (#[trigger] outs[i] matches Some(o) ==> o.0 != sequence) by {
            if i < fs.len() {
                assert(outs[i] == prev.1[i]);
            }
        }
    }
}

} // verus!
