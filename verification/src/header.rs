//! Model of an extended block header as the core consumes it: a positive
//! height, a content-addressed hash, and a wall-clock timestamp, together
//! with the stable binary layout used on the wire.

use vstd::prelude::*;

use crate::bytes::{
    copy_bytes, get_u64_be, lemma_u64_be_inverse, put_u64_be, u64_be_bytes, u64_from_be,
};

verus! {

/// Length in bytes of a canonical header hash.
pub const HASH_SIZE: usize = 32;

/// Length in bytes of an encoded header: height, time, then the hash.
pub const HEADER_BYTES: usize = 48;

/// Mathematical view of a [`Header`].
pub struct HeaderView {
    pub height: u64,
    pub hash: Seq<u8>,
    pub time: u64,
}

/// An extended block header, reduced to the fields the core reads: the
/// block height, the canonical hash, and the block time in milliseconds
/// since the unix epoch.
pub struct Header {
    height: u64,
    hash: Vec<u8>,
    time: u64,
}

impl View for Header {
    type V = HeaderView;

    closed spec fn view(&self) -> HeaderView {
        HeaderView { height: self.height, hash: self.hash@, time: self.time }
    }
}

impl HeaderView {
    /// A header is well formed when its height is positive and its hash has
    /// the canonical length.
    pub open spec fn wf(self) -> bool {
        self.height >= 1 && self.hash.len() == HASH_SIZE
    }
}

/// The views of a list of headers.
pub open spec fn header_views(s: Seq<Header>) -> Seq<HeaderView> {
    s.map_values(|h: Header| h@)
}

/// The canonical byte layout of a header: height and time as big-endian
/// 64-bit integers, followed by the 32 hash bytes.
pub open spec fn header_bytes(h: HeaderView) -> Seq<u8> {
    u64_be_bytes(h.height) + u64_be_bytes(h.time) + h.hash
}

/// What decoding a body yields: the header fields, provided the body has
/// the exact length and a positive height.
pub open spec fn spec_decode_header(body: Seq<u8>) -> Option<HeaderView> {
    if body.len() == HEADER_BYTES && u64_from_be(body.subrange(0, 8)) >= 1 {
        Some(
            HeaderView {
                height: u64_from_be(body.subrange(0, 8)),
                time: u64_from_be(body.subrange(8, 16)),
                hash: body.subrange(16, HEADER_BYTES as int),
            },
        )
    } else {
        None
    }
}

impl Header {
    /// Build a header from its fields.
    pub fn new(height: u64, hash: Vec<u8>, time: u64) -> (r: Header)
        requires
            height >= 1,
            hash@.len() == HASH_SIZE,
        ensures
            r@ == (HeaderView { height, hash: hash@, time }),
            r@.wf(),
    {
        Header { height, hash, time }
    }

    pub fn height(&self) -> (r: u64)
        ensures
            r == self@.height,
    {
        self.height
    }

    pub fn time(&self) -> (r: u64)
        ensures
            r == self@.time,
    {
        self.time
    }

    pub fn hash(&self) -> (r: &Vec<u8>)
        ensures
            r@ == self@.hash,
    {
        &self.hash
    }

    /// An owned copy of this header.
    pub fn dup(&self) -> (r: Header)
        ensures
            r@ == self@,
    {
        Header { height: self.height, hash: copy_bytes(&self.hash), time: self.time }
    }

    /// Encode the header in its canonical byte layout.
    pub fn encode(&self) -> (r: Vec<u8>)
        requires
            self@.wf(),
        ensures
            r@ == header_bytes(self@),
            r@.len() == HEADER_BYTES,
    {
        let mut out: Vec<u8> = Vec::new();
        put_u64_be(&mut out, self.height);
        put_u64_be(&mut out, self.time);
        let mut i: usize = 0;
        while i < self.hash.len()
            invariant
                i <= self.hash@.len(),
                out@ == u64_be_bytes(self@.height) + u64_be_bytes(self@.time) + self.hash@.subrange(
                    0,
                    i as int,
                ),
            decreases self.hash@.len() - i,
        {
            out.push(self.hash[i]);
            i = i + 1;
            assert(out@ =~= u64_be_bytes(self@.height) + u64_be_bytes(self@.time)
                + self.hash@.subrange(0, i as int));
        }
        assert(out@ =~= header_bytes(self@));
        out
    }

    /// Decode a header from its canonical byte layout, performing the
    /// intrinsic validation the exchange client relies on: exact length and
    /// a positive height. Returns `None` on any malformed body.
    pub fn decode(body: &[u8]) -> (r: Option<Header>)
        ensures
            match r {
                Some(h) => {
                    &&& spec_decode_header(body@) == Some(h@)
                    &&& h@.wf()
                    &&& body@ == header_bytes(h@)
                },
                None => spec_decode_header(body@) is None,
            },
    {
        if body.len() != HEADER_BYTES {
            return None;
        }
        let height = get_u64_be(body, 0);
        if height == 0 {
            return None;
        }
        let time = get_u64_be(body, 8);
        let mut hash: Vec<u8> = Vec::new();
        let mut i: usize = 16;
        while i < HEADER_BYTES
            invariant
                16 <= i <= HEADER_BYTES,
                body@.len() == HEADER_BYTES,
                hash@ == body@.subrange(16, i as int),
            decreases HEADER_BYTES - i,
        {
            hash.push(body[i]);
            i = i + 1;
            assert(hash@ =~= body@.subrange(16, i as int));
        }
        let h = Header { height, hash, time };
        proof {
            lemma_u64_be_inverse(body@.subrange(0, 8));
            lemma_u64_be_inverse(body@.subrange(8, 16));
            assert(header_bytes(h@) =~= body@);
        }
        Some(h)
    }
}

} // verus!
