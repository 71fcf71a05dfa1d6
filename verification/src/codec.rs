//! Deterministic byte encoding of the persisted containers: a `u64` is
//! eight little-endian bytes, a sequence of `u64` values is the
//! concatenation of its elements' encodings. Both directions carry exact
//! contracts, and decoding an encoding is proved to give the value back.

use vstd::prelude::*;

verus! {

/// The eight little-endian bytes of `x`.
pub open spec fn le8(x: u64) -> Seq<u8> {
    seq![
        (x & 0xff) as u8,
        ((x >> 8) & 0xff) as u8,
        ((x >> 16) & 0xff) as u8,
        ((x >> 24) & 0xff) as u8,
        ((x >> 32) & 0xff) as u8,
        ((x >> 40) & 0xff) as u8,
        ((x >> 48) & 0xff) as u8,
        ((x >> 56) & 0xff) as u8,
    ]
}

/// The `u64` read from eight little-endian bytes.
pub open spec fn u64_of_le(b: Seq<u8>) -> u64
    recommends
        b.len() == 8,
{
    (b[0] as u64) | ((b[1] as u64) << 8) | ((b[2] as u64) << 16) | ((b[3] as u64) << 24)
        | ((b[4] as u64) << 32) | ((b[5] as u64) << 40) | ((b[6] as u64) << 48) | ((b[7] as u64)
        << 56)
}

pub proof fn lemma_le8_roundtrip(x: u64)
    ensures
        le8(x).len() == 8,
        u64_of_le(le8(x)) == x,
{
    assert(((x & 0xff) as u8 as u64) | ((((x >> 8) & 0xff) as u8 as u64) << 8) | ((((x >> 16)
        & 0xff) as u8 as u64) << 16) | ((((x >> 24) & 0xff) as u8 as u64) << 24) | ((((x >> 32)
        & 0xff) as u8 as u64) << 32) | ((((x >> 40) & 0xff) as u8 as u64) << 40) | ((((x >> 48)
        & 0xff) as u8 as u64) << 48) | ((((x >> 56) & 0xff) as u8 as u64) << 56) == x)
        by (bit_vector);
}

/// Concatenated encoding of a sequence of `u64` values.
pub open spec fn ser_u64s(l: Seq<u64>) -> Seq<u8>
    decreases l.len(),
{
    if l.len() == 0 {
        Seq::empty()
    } else {
        ser_u64s(l.drop_last()) + le8(l.last())
    }
}

pub proof fn lemma_ser_u64s_len(l: Seq<u64>)
    ensures
        ser_u64s(l).len() == 8 * l.len(),
    decreases l.len(),
{
    if l.len() > 0 {
        lemma_ser_u64s_len(l.drop_last());
    }
}

pub proof fn lemma_ser_u64s_push(l: Seq<u64>, x: u64)
    ensures
        ser_u64s(l.push(x)) == ser_u64s(l) + le8(x),
{
    let p = l.push(x);
    assert(p.drop_last() =~= l);
    assert(p.last() == x);
}

/// The `n` values read back from a byte sequence of length `8 * n`.
pub open spec fn parse_u64s(b: Seq<u8>, n: nat) -> Seq<u64>
    recommends
        b.len() == 8 * n,
{
    Seq::new(n, |i: int| u64_of_le(b.subrange(8 * i, 8 * i + 8)))
}

pub proof fn lemma_parse_ser_u64s(l: Seq<u64>)
    ensures
        parse_u64s(ser_u64s(l), l.len()) == l,
    decreases l.len(),
{
    lemma_ser_u64s_len(l);
    let b = ser_u64s(l);
    if l.len() == 0 {
        assert(parse_u64s(b, 0) =~= l);
    } else {
        let dl = l.drop_last();
        lemma_parse_ser_u64s(dl);
        lemma_ser_u64s_len(dl);
        let bd = ser_u64s(dl);
        let last = l.len() - 1;
        assert forall|i: int| 0 <= i < l.len() implies parse_u64s(b, l.len())[i] == l[i] by {
            if i < last {
                assert(b.subrange(8 * i, 8 * i + 8) =~= bd.subrange(8 * i, 8 * i + 8));
                assert(parse_u64s(bd, dl.len())[i] == dl[i]);
            } else {
                assert(b.subrange(8 * i, 8 * i + 8) =~= le8(l.last()));
                lemma_le8_roundtrip(l.last());
            }
        }
        assert(parse_u64s(b, l.len()) =~= l);
    }
}

/// Appends the eight little-endian bytes of `x` to `out`.
pub fn push_u64_le(out: &mut Vec<u8>, x: u64)
    ensures
        final(out)@ == old(out)@ + le8(x),
{
    out.push((x & 0xff) as u8);
    out.push(((x >> 8) & 0xff) as u8);
    out.push(((x >> 16) & 0xff) as u8);
    out.push(((x >> 24) & 0xff) as u8);
    out.push(((x >> 32) & 0xff) as u8);
    out.push(((x >> 40) & 0xff) as u8);
    out.push(((x >> 48) & 0xff) as u8);
    out.push(((x >> 56) & 0xff) as u8);
    proof {
        assert(out@ =~= old(out)@ + le8(x));
    }
}

/// Reads a `u64` from the eight little-endian bytes at `off`.
pub fn read_u64_le(b: &Vec<u8>, off: usize) -> (r: u64)
    requires
        off + 8 <= b.len(),
    ensures
        r == u64_of_le(b@.subrange(off as int, off as int + 8)),
{
    let r = (b[off] as u64) | ((b[off + 1] as u64) << 8) | ((b[off + 2] as u64) << 16) | ((b[off
        + 3] as u64) << 24) | ((b[off + 4] as u64) << 32) | ((b[off + 5] as u64) << 40) | ((b[off
        + 6] as u64) << 48) | ((b[off + 7] as u64) << 56);
    proof {
        let s = b@.subrange(off as int, off as int + 8);
        assert(s[0] == b@[off as int]);
        assert(s[1] == b@[off as int + 1]);
        assert(s[2] == b@[off as int + 2]);
        assert(s[3] == b@[off as int + 3]);
        assert(s[4] == b@[off as int + 4]);
        assert(s[5] == b@[off as int + 5]);
        assert(s[6] == b@[off as int + 6]);
        assert(s[7] == b@[off as int + 7]);
    }
    r
}

/// Appends the encoding of every element of `l` to `out`.
pub fn push_u64s_le(out: &mut Vec<u8>, l: &Vec<u64>)
    ensures
        final(out)@ == old(out)@ + ser_u64s(l@),
{
    let mut i: usize = 0;
    proof {
        assert(l@.take(0) =~= Seq::<u64>::empty());
        assert(out@ =~= out@ + ser_u64s(l@.take(0)));
    }
    while i < l.len()
        invariant
            i <= l.len(),
            out@ == old(out)@ + ser_u64s(l@.take(i as int)),
        decreases l.len() - i,
    {
        proof {
            assert(l@.take(i as int + 1) =~= l@.take(i as int).push(l@[i as int]));
            lemma_ser_u64s_push(l@.take(i as int), l@[i as int]);
        }
        push_u64_le(out, l[i]);
        proof {
            assert(out@ =~= old(out)@ + ser_u64s(l@.take(i as int + 1)));
        }
        i += 1;
    }
    proof {
        assert(l@.take(l@.len() as int) =~= l@);
    }
}

/// Reads `n` values from the bytes at `off`.
pub fn read_u64s_le(b: &Vec<u8>, off: usize, n: usize) -> (r: Vec<u64>)
    requires
        off + 8 * n <= b.len(),
    ensures
        r@ == parse_u64s(b@.subrange(off as int, off as int + 8 * n), n as nat),
{
    let mut r: Vec<u64> = Vec::new();
    let mut i: usize = 0;
    while i < n
        invariant
            i <= n,
            off + 8 * n <= b.len(),
            r@.len() == i,
            forall|j: int|
                0 <= j < i ==> r@[j] == u64_of_le(
                    b@.subrange(off + 8 * j, off + 8 * j + 8),
                ),
        decreases n - i,
    {
        let v = read_u64_le(b, off + 8 * i);
        r.push(v);
        i += 1;
    }
    proof {
        let whole = b@.subrange(off as int, off as int + 8 * n);
        assert forall|j: int| 0 <= j < n implies r@[j] == u64_of_le(
            whole.subrange(8 * j, 8 * j + 8),
        ) by {
            assert(whole.subrange(8 * j, 8 * j + 8) =~= b@.subrange(off + 8 * j, off + 8 * j + 8));
        }
        assert(r@ =~= parse_u64s(whole, n as nat));
    }
    r
}

} // verus!
