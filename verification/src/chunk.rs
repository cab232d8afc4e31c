//! Splitting a byte string into bounded pieces, the way a slice's `chunks`
//! does, and the facts that reassembly relies on.

use vstd::prelude::*;

verus! {

/// The pieces of `s` of length `n`, in order; the last one may be shorter.
/// The empty string has no pieces.
pub open spec fn chunks(s: Seq<u8>, n: nat) -> Seq<Seq<u8>>
    decreases s.len(),
{
    if n == 0 || s.len() == 0 {
        seq![]
    } else if s.len() <= n {
        seq![s]
    } else {
        seq![s.take(n as int)] + chunks(s.skip(n as int), n)
    }
}

/// The concatenation of the byte strings in `parts`, in order.
pub open spec fn concat(parts: Seq<Seq<u8>>) -> Seq<u8>
    decreases parts.len(),
{
    if parts.len() == 0 {
        seq![]
    } else {
        parts[0] + concat(parts.drop_first())
    }
}

/// Joining the pieces gives back the string; every piece is non-empty and
/// at most `n` long.
pub proof fn lemma_chunks_concat(s: Seq<u8>, n: nat)
    requires
        n > 0,
    ensures
        concat(chunks(s, n)) == s,
        forall|i: int| 0 <= i < chunks(s, n).len() ==> 0 < #[trigger] chunks(s, n)[i].len() <= n,
        s.len() == 0 <==> chunks(s, n).len() == 0,
    decreases s.len(),
{
    if s.len() == 0 {
    } else if s.len() <= n {
        let c = chunks(s, n);
        assert(c.drop_first() =~= seq![]);
        assert(concat(c.drop_first()) == Seq::<u8>::empty());
        assert(concat(c) =~= s);
    } else {
        let rest = s.skip(n as int);
        lemma_chunks_concat(rest, n);
        let c = chunks(s, n);
        assert(c.drop_first() =~= chunks(rest, n));
        assert(s =~= s.take(n as int) + rest);
        assert forall|i: int| 0 <= i < c.len() implies 0 < #[trigger] c[i].len() <= n by {
            if i > 0 {
                assert(c[i] == chunks(rest, n)[i - 1]);
            }
        }
    }
}

/// The concatenation of `a + b` is that of `a` followed by that of `b`.
pub proof fn lemma_concat_append(a: Seq<Seq<u8>>, b: Seq<Seq<u8>>)
    ensures
        concat(a + b) == concat(a) + concat(b),
    decreases a.len(),
{
    if a.len() == 0 {
        assert(a + b =~= b);
        assert(concat(a) =~= seq![]);
        assert(concat(a) + concat(b) =~= concat(b));
    } else {
        lemma_concat_append(a.drop_first(), b);
        assert((a + b).drop_first() =~= a.drop_first() + b);
        assert(concat(a) + concat(b) =~= a[0] + (concat(a.drop_first()) + concat(b)));
    }
}

/// Appends `src` to `buf`.
pub fn append_bytes(buf: &mut Vec<u8>, src: &[u8])
    ensures
        final(buf)@ == old(buf)@ + src@,
{
    let ghost start = buf@;
    let mut i: usize = 0;
    while i < src.len()
        invariant
            i <= src@.len(),
            buf@ == start + src@.take(i as int),
        decreases src@.len() - i,
    {
        buf.push(src[i]);
        i = i + 1;
        assert(src@.take(i as int) =~= src@.take(i - 1) + seq![src@[i - 1]]);
    }
    assert(src@.take(i as int) =~= src@);
}

/// Splits `bytes` into pieces of at most `n` bytes, in order.
pub fn split_chunks(bytes: &[u8], n: usize) -> (r: Vec<Vec<u8>>)
    requires
        n > 0,
    ensures
        r@.len() == chunks(bytes@, n as nat).len(),
        forall|i: int| 0 <= i < r@.len() ==> #[trigger] r@[i]@ == chunks(bytes@, n as nat)[i],
{
    let mut out: Vec<Vec<u8>> = Vec::new();
    let mut offset: usize = 0;
    let ghost all = chunks(bytes@, n as nat);
    assert(bytes@.skip(0) =~= bytes@);
    while offset < bytes.len()
        invariant
            n > 0,
            offset <= bytes@.len(),
            all == chunks(bytes@, n as nat),
            out@.len() + chunks(bytes@.skip(offset as int), n as nat).len() == all.len(),
            forall|i: int| 0 <= i < out@.len() ==> #[trigger] out@[i]@ == all[i],
            forall|i: int|
                0 <= i < chunks(bytes@.skip(offset as int), n as nat).len() ==> #[trigger] chunks(
                    bytes@.skip(offset as int),
                    n as nat,
                )[i] == all[out@.len() + i],
        decreases bytes@.len() - offset,
    {
        let ghost rest = bytes@.skip(offset as int);
        let remaining = bytes.len() - offset;
        let take = if remaining <= n { remaining } else { n };
        let piece = vstd::slice::slice_subrange(bytes, offset, offset + take);
        let mut chunk: Vec<u8> = Vec::new();
        append_bytes(&mut chunk, piece);
        proof {
            let cs = chunks(rest, n as nat);
            let next = bytes@.skip((offset + take) as int);
            assert(cs[0] == all[out@.len() as int + 0]);
            if remaining <= n {
                assert(chunk@ =~= rest);
                assert(next.len() == 0);
                assert(chunks(next, n as nat) =~= seq![]);
                assert(cs[0] == rest);
            } else {
                assert(chunk@ =~= rest.take(n as int));
                assert(rest.skip(n as int) =~= next);
                assert(cs =~= seq![rest.take(n as int)] + chunks(next, n as nat));
                assert forall|i: int| 0 <= i < chunks(next, n as nat).len() implies #[trigger] chunks(
                    next,
                    n as nat,
                )[i] == all[out@.len() + 1 + i] by {
                    assert(cs[i + 1] == chunks(next, n as nat)[i]);
                }
            }
        }
        out.push(chunk);
        offset = offset + take;
    }
    proof {
        assert(bytes@.skip(offset as int).len() == 0);
    }
    out
}

} // verus!
