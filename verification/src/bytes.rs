//! Big- and little-endian byte codecs for the fixed-width integers that the
//! wire formats of this crate use, together with the round-trip lemmas the
//! identifier codecs rely on.

use vstd::prelude::*;

verus! {

pub open spec fn u16_be_bytes(x: u16) -> Seq<u8> {
    seq![(x >> 8) as u8, x as u8]
}

pub open spec fn u16_le_bytes(x: u16) -> Seq<u8> {
    seq![x as u8, (x >> 8) as u8]
}

pub open spec fn u16_from_be(s: Seq<u8>) -> u16
    recommends
        s.len() == 2,
{
    (((s[0] as u16) << 8) | (s[1] as u16)) as u16
}

pub open spec fn u16_from_le(s: Seq<u8>) -> u16
    recommends
        s.len() == 2,
{
    (((s[1] as u16) << 8) | (s[0] as u16)) as u16
}

pub open spec fn u64_be_bytes(x: u64) -> Seq<u8> {
    seq![
        (x >> 56) as u8,
        (x >> 48) as u8,
        (x >> 40) as u8,
        (x >> 32) as u8,
        (x >> 24) as u8,
        (x >> 16) as u8,
        (x >> 8) as u8,
        x as u8,
    ]
}

pub open spec fn u64_le_bytes(x: u64) -> Seq<u8> {
    u64_be_bytes(x).reverse()
}

pub open spec fn u64_from_be(s: Seq<u8>) -> u64
    recommends
        s.len() == 8,
{
    (((s[0] as u64) << 56) | ((s[1] as u64) << 48) | ((s[2] as u64) << 40) | ((s[3] as u64) << 32)
        | ((s[4] as u64) << 24) | ((s[5] as u64) << 16) | ((s[6] as u64) << 8) | (s[7] as u64)) as u64
}

pub open spec fn u64_from_le(s: Seq<u8>) -> u64
    recommends
        s.len() == 8,
{
    u64_from_be(s.reverse())
}

pub proof fn lemma_u16_be_roundtrip(x: u16)
    ensures
        u16_from_be(u16_be_bytes(x)) == x,
{
    assert((((((x >> 8) as u8) as u16) << 8) | ((x as u8) as u16)) as u16 == x) by (bit_vector);
}

pub proof fn lemma_u16_le_roundtrip(x: u16)
    ensures
        u16_from_le(u16_le_bytes(x)) == x,
{
    assert((((((x >> 8) as u8) as u16) << 8) | ((x as u8) as u16)) as u16 == x) by (bit_vector);
}

pub proof fn lemma_u64_be_roundtrip(x: u64)
    ensures
        u64_from_be(u64_be_bytes(x)) == x,
{
    assert(((((x >> 56) as u8 as u64) << 56) | (((x >> 48) as u8 as u64) << 48) | (((x
        >> 40) as u8 as u64) << 40) | (((x >> 32) as u8 as u64) << 32) | (((x
        >> 24) as u8 as u64) << 24) | (((x >> 16) as u8 as u64) << 16) | (((x >> 8) as u8 as u64)
        << 8) | ((x as u8) as u64)) as u64 == x) by (bit_vector);
}

pub proof fn lemma_u64_le_roundtrip(x: u64)
    ensures
        u64_from_le(u64_le_bytes(x)) == x,
{
    assert(u64_le_bytes(x).reverse() =~= u64_be_bytes(x));
    lemma_u64_be_roundtrip(x);
}

pub proof fn lemma_u16_be_inverse(s: Seq<u8>)
    requires
        s.len() == 2,
    ensures
        u16_be_bytes(u16_from_be(s)) == s,
{
    let b0 = s[0];
    let b1 = s[1];
    let x = u16_from_be(s);
    assert(((((b0 as u16) << 8) | (b1 as u16)) as u16) >> 8 == b0 as u16) by (bit_vector);
    assert((((((b0 as u16) << 8) | (b1 as u16)) as u16) as u8) == b1) by (bit_vector);
    assert(u16_be_bytes(x) =~= s);
}

pub proof fn lemma_u64_be_inverse(s: Seq<u8>)
    requires
        s.len() == 8,
    ensures
        u64_be_bytes(u64_from_be(s)) == s,
{
    let b0 = s[0];
    let b1 = s[1];
    let b2 = s[2];
    let b3 = s[3];
    let b4 = s[4];
    let b5 = s[5];
    let b6 = s[6];
    let b7 = s[7];
    let x = (((b0 as u64) << 56) | ((b1 as u64) << 48) | ((b2 as u64) << 40) | ((b3 as u64) << 32)
        | ((b4 as u64) << 24) | ((b5 as u64) << 16) | ((b6 as u64) << 8) | (b7 as u64)) as u64;
    assert((x >> 56) as u8 == b0 && (x >> 48) as u8 == b1 && (x >> 40) as u8 == b2 && (x
        >> 32) as u8 == b3 && (x >> 24) as u8 == b4 && (x >> 16) as u8 == b5 && (x >> 8) as u8 == b6
        && x as u8 == b7) by (bit_vector)
        requires
            x == (((b0 as u64) << 56) | ((b1 as u64) << 48) | ((b2 as u64) << 40) | ((b3 as u64)
                << 32) | ((b4 as u64) << 24) | ((b5 as u64) << 16) | ((b6 as u64) << 8) | (
            b7 as u64)) as u64,
    ;
    assert(u64_be_bytes(x) =~= s);
}

pub proof fn lemma_u16_le_inverse(s: Seq<u8>)
    requires
        s.len() == 2,
    ensures
        u16_le_bytes(u16_from_le(s)) == s,
{
    let b0 = s[0];
    let b1 = s[1];
    let x = u16_from_le(s);
    assert(((((b1 as u16) << 8) | (b0 as u16)) as u16) >> 8 == b1 as u16) by (bit_vector);
    assert((((((b1 as u16) << 8) | (b0 as u16)) as u16) as u8) == b0) by (bit_vector);
    assert(u16_le_bytes(x) =~= s);
}

pub proof fn lemma_u64_le_inverse(s: Seq<u8>)
    requires
        s.len() == 8,
    ensures
        u64_le_bytes(u64_from_le(s)) == s,
{
    lemma_u64_be_inverse(s.reverse());
    assert(u64_le_bytes(u64_from_le(s)) =~= s);
}

pub fn put_u16_be(out: &mut Vec<u8>, x: u16)
    ensures
        final(out)@ == old(out)@ + u16_be_bytes(x),
{
    out.push((x >> 8) as u8);
    out.push(x as u8);
    assert(out@ =~= old(out)@ + u16_be_bytes(x));
}

pub fn put_u16_le(out: &mut Vec<u8>, x: u16)
    ensures
        final(out)@ == old(out)@ + u16_le_bytes(x),
{
    out.push(x as u8);
    out.push((x >> 8) as u8);
    assert(out@ =~= old(out)@ + u16_le_bytes(x));
}

pub fn put_u64_be(out: &mut Vec<u8>, x: u64)
    ensures
        final(out)@ == old(out)@ + u64_be_bytes(x),
{
    out.push((x >> 56) as u8);
    out.push((x >> 48) as u8);
    out.push((x >> 40) as u8);
    out.push((x >> 32) as u8);
    out.push((x >> 24) as u8);
    out.push((x >> 16) as u8);
    out.push((x >> 8) as u8);
    out.push(x as u8);
    assert(out@ =~= old(out)@ + u64_be_bytes(x));
}

pub fn put_u64_le(out: &mut Vec<u8>, x: u64)
    ensures
        final(out)@ == old(out)@ + u64_le_bytes(x),
{
    out.push(x as u8);
    out.push((x >> 8) as u8);
    out.push((x >> 16) as u8);
    out.push((x >> 24) as u8);
    out.push((x >> 32) as u8);
    out.push((x >> 40) as u8);
    out.push((x >> 48) as u8);
    out.push((x >> 56) as u8);
    assert(out@ =~= old(out)@ + u64_le_bytes(x));
}

pub fn get_u16_be(b: &[u8], at: usize) -> (x: u16)
    requires
        at + 2 <= b@.len(),
    ensures
        x == u16_from_be(b@.subrange(at as int, at as int + 2)),
{
    ((b[at] as u16) << 8) | (b[at + 1] as u16)
}

pub fn get_u16_le(b: &[u8], at: usize) -> (x: u16)
    requires
        at + 2 <= b@.len(),
    ensures
        x == u16_from_le(b@.subrange(at as int, at as int + 2)),
{
    let n: usize = b.len();
    ((b[at + 1] as u16) << 8) | (b[at] as u16)
}

pub fn get_u64_be(b: &[u8], at: usize) -> (x: u64)
    requires
        at + 8 <= b@.len(),
    ensures
        x == u64_from_be(b@.subrange(at as int, at as int + 8)),
{
    ((b[at] as u64) << 56) | ((b[at + 1] as u64) << 48) | ((b[at + 2] as u64) << 40) | ((b[at
        + 3] as u64) << 32) | ((b[at + 4] as u64) << 24) | ((b[at + 5] as u64) << 16) | ((b[at
        + 6] as u64) << 8) | (b[at + 7] as u64)
}

pub fn get_u64_le(b: &[u8], at: usize) -> (x: u64)
    requires
        at + 8 <= b@.len(),
    ensures
        x == u64_from_le(b@.subrange(at as int, at as int + 8)),
{
    let n: usize = b.len();
    let x = ((b[at + 7] as u64) << 56) | ((b[at + 6] as u64) << 48) | ((b[at + 5] as u64) << 40) | (
    (b[at + 4] as u64) << 32) | ((b[at + 3] as u64) << 24) | ((b[at + 2] as u64) << 16) | ((b[at
        + 1] as u64) << 8) | (b[at] as u64);
    proof {
        let s = b@.subrange(at as int, at as int + 8);
        assert(s.reverse() =~= seq![b@[at + 7], b@[at + 6], b@[at + 5], b@[at + 4], b@[at + 3], b@[at + 2], b@[at + 1], b@[at as int]]);
    }
    x
}

/// Byte-for-byte equality of two byte vectors.
pub fn bytes_eq(a: &Vec<u8>, b: &Vec<u8>) -> (r: bool)
    ensures
        r == (a@ == b@),
{
    if a.len() != b.len() {
        return false;
    }
    let mut i: usize = 0;
    while i < a.len()
        invariant
            a@.len() == b@.len(),
            i <= a@.len(),
            forall|j: int| 0 <= j < i ==> a@[j] == b@[j],
        decreases a@.len() - i,
    {
        if a[i] != b[i] {
            return false;
        }
        i = i + 1;
    }
    proof {
        assert(a@ =~= b@);
    }
    true
}

/// Copy a byte vector element by element.
pub fn copy_bytes(v: &Vec<u8>) -> (r: Vec<u8>)
    ensures
        r@ == v@,
{
    let mut r: Vec<u8> = Vec::new();
    let mut i: usize = 0;
    while i < v.len()
        invariant
            i <= v@.len(),
            r@ == v@.subrange(0, i as int),
        decreases v@.len() - i,
    {
        r.push(v[i]);
        i = i + 1;
        assert(r@ =~= v@.subrange(0, i as int));
    }
    assert(r@ =~= v@);
    r
}

} // verus!
