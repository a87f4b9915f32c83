//! Header exchange client: request classification and validation, decoding
//! and shape-checking of peer responses, head election by quorum, and the
//! table of in-flight requests with its timeout sweep.

use vstd::prelude::*;

use crate::bytes::{bytes_eq, copy_bytes};
use crate::header::{spec_decode_header, Header, HeaderView, HASH_SIZE};

verus! {

/// Largest number of trusted peers a head request fans out to.
pub const MAX_PEERS: usize = 10;

/// Least number of peers that must report a head for it to win by quorum.
pub const MIN_HEAD_RESPONSES: usize = 2;

/// A request older than this many milliseconds is failed by the sweep.
pub const TIMEOUT_MS: u64 = 10_000;

/// Wire status code: the peer served the request.
pub const STATUS_OK: u64 = 0;

/// Wire status code: the peer does not have the requested header.
pub const STATUS_NOT_FOUND: u64 = 1;

/// Wire status code: the peer deems the request invalid.
pub const STATUS_INVALID: u64 = 2;

/// The kind of a transport-level failure.
#[derive(Debug, Clone, Copy, PartialEq, Eq, Structural)]
pub enum OutboundFailureKind {
    Timeout,
    ConnectionClosed,
    Dial,
    Io,
}

/// Errors surfaced to the caller of the exchange client.
#[derive(Debug, Clone, Copy, PartialEq, Eq, Structural)]
pub enum P2pError {
    /// The caller supplied a malformed request.
    InvalidRequest,
    /// The peer violated the shape or intrinsic-validity rules.
    InvalidResponse,
    /// The request could not be satisfied, including a failed head quorum.
    HeaderNotFound,
    /// A transport-level failure.
    OutboundFailure(OutboundFailureKind),
    /// No candidate peers are connected.
    NoConnectedPeers,
}

/// What a request asks for: headers from a starting height, or the header
/// with a given hash.
pub enum RequestData {
    Origin(u64),
    Hash(Vec<u8>),
}

/// A query for headers: exactly one kind of data, and a positive count.
pub struct HeaderRequest {
    pub data: Option<RequestData>,
    pub amount: u64,
}

impl HeaderRequest {
    /// Validity of a request: the amount is positive; a head query
    /// (`Origin(0)`) and a hash query ask for exactly one header, and a
    /// hash must have the canonical length.
    pub open spec fn spec_valid(self) -> bool {
        match self.data {
            Some(RequestData::Origin(origin)) => if origin == 0 {
                self.amount == 1
            } else {
                self.amount >= 1
            },
            Some(RequestData::Hash(h)) => h@.len() == HASH_SIZE && self.amount == 1,
            None => false,
        }
    }

    /// A head request asks for the current network head: `Origin(0)` with
    /// an amount of one.
    pub open spec fn spec_is_head(self) -> bool {
        (self.data matches Some(RequestData::Origin(origin)) && origin == 0) && self.amount == 1
    }

    pub fn with_origin(origin: u64, amount: u64) -> (r: HeaderRequest)
        ensures
            r.data matches Some(RequestData::Origin(o)) && o == origin,
            r.amount == amount,
    {
        HeaderRequest { data: Some(RequestData::Origin(origin)), amount }
    }

    pub fn with_hash(hash: Vec<u8>) -> (r: HeaderRequest)
        ensures
            r.data matches Some(RequestData::Hash(h)) && h@ == hash@,
            r.amount == 1,
    {
        HeaderRequest { data: Some(RequestData::Hash(hash)), amount: 1 }
    }

    pub fn is_valid(&self) -> (r: bool)
        ensures
            r == self.spec_valid(),
    {
        match &self.data {
            Some(RequestData::Origin(origin)) => {
                if *origin == 0 {
                    self.amount == 1
                } else {
                    self.amount >= 1
                }
            },
            Some(RequestData::Hash(h)) => h.len() == HASH_SIZE && self.amount == 1,
            None => false,
        }
    }

    pub fn is_head_request(&self) -> (r: bool)
        ensures
            r == self.spec_is_head(),
    {
        match &self.data {
            Some(RequestData::Origin(origin)) => *origin == 0 && self.amount == 1,
            _ => false,
        }
    }

    /// An owned copy of this request.
    pub fn dup(&self) -> (r: HeaderRequest)
        ensures
            r.amount == self.amount,
            match (r.data, self.data) {
                (Some(RequestData::Origin(a)), Some(RequestData::Origin(b))) => a == b,
                (Some(RequestData::Hash(a)), Some(RequestData::Hash(b))) => a@ == b@,
                (None, None) => true,
                _ => false,
            },
    {
        let data = match &self.data {
            Some(RequestData::Origin(origin)) => Some(RequestData::Origin(*origin)),
            Some(RequestData::Hash(h)) => Some(RequestData::Hash(copy_bytes(h))),
            None => None,
        };
        HeaderRequest { data, amount: self.amount }
    }
}

/// One message of a peer's reply: an opaque body and a status code.
pub struct HeaderResponse {
    pub body: Vec<u8>,
    pub status_code: u64,
}

/// The header a response carries, provided its status is OK and its body
/// decodes into an intrinsically valid header.
pub open spec fn resp_header(r: HeaderResponse) -> Option<HeaderView> {
    if r.status_code == STATUS_OK {
        spec_decode_header(r.body@)
    } else {
        None
    }
}

/// The error a response that carries no header maps to: a not-found status
/// becomes `HeaderNotFound`, everything else `InvalidResponse`.
pub open spec fn resp_error(r: HeaderResponse) -> P2pError {
    if r.status_code == STATUS_NOT_FOUND {
        P2pError::HeaderNotFound
    } else {
        P2pError::InvalidResponse
    }
}

impl HeaderResponse {
    /// Decode this response into a header, performing intrinsic validation.
    pub fn to_extended_header(&self) -> (r: Result<Header, P2pError>)
        ensures
            match r {
                Ok(h) => resp_header(*self) == Some(h@) && h@.wf(),
                Err(e) => resp_header(*self) is None && e == resp_error(*self),
            },
    {
        if self.status_code == STATUS_OK {
            match Header::decode(self.body.as_slice()) {
                Some(h) => Ok(h),
                None => Err(P2pError::InvalidResponse),
            }
        } else if self.status_code == STATUS_NOT_FOUND {
            Err(P2pError::HeaderNotFound)
        } else {
            Err(P2pError::InvalidResponse)
        }
    }
}

/// Whether a header is one of the listed ones.
pub open spec fn is_one_of(x: HeaderView, vs: Seq<HeaderView>) -> bool {
    exists|i: int| 0 <= i < vs.len() && (#[trigger] vs[i]) == x
}

/// Whether a header is carried by one of the reply's messages.
pub open spec fn is_resp_of(x: HeaderView, rs: Seq<HeaderResponse>) -> bool {
    exists|i: int| 0 <= i < rs.len() && (#[trigger] resp_header(rs[i])) == Some(x)
}

/// Whether some message of the reply carries a header of the given height.
pub open spec fn height_present(rs: Seq<HeaderResponse>, h: int) -> bool {
    exists|i: int| 0 <= i < rs.len() && (#[trigger] resp_header(rs[i]))->0.height == h
}

/// The position of the first message whose body carries no valid header;
/// the error of a rejected reply is read off this message.
pub open spec fn spec_first_undecodable(rs: Seq<HeaderResponse>) -> int {
    choose|i: int|
        0 <= i < rs.len() && resp_header(#[trigger] rs[i]) is None && (forall|j: int|
            0 <= j < i ==> resp_header(#[trigger] rs[j]) is Some)
}

/// When a reply is accepted for a request: the reply is non-empty, not
/// longer than asked, every message carries a valid header, and the
/// headers fit the request: any single header for a head query, the exact
/// heights `origin..origin+amount` for a range query, the matching hash
/// for a hash query.
pub open spec fn spec_accepted(req: HeaderRequest, rs: Seq<HeaderResponse>) -> bool {
    &&& rs.len() >= 1
    &&& rs.len() <= req.amount
    &&& (forall|i: int| 0 <= i < rs.len() ==> resp_header(#[trigger] rs[i]) is Some)
    &&& match req.data {
        Some(RequestData::Origin(origin)) => if origin == 0 {
            rs.len() == 1
        } else {
            &&& rs.len() == req.amount
            &&& forall|k: int| 0 <= k < rs.len() ==> #[trigger] height_present(rs, origin + k)
        },
        Some(RequestData::Hash(h)) => rs.len() == 1 && resp_header(rs[0])->0.hash == h@,
        None => false,
    }
}


/// Whether some header of the list has the given height.
pub open spec fn view_height_present(vs: Seq<HeaderView>, h: int) -> bool {
    exists|i: int| 0 <= i < vs.len() && (#[trigger] vs[i]).height == h
}

/// Arrange decoded headers in ascending height order starting at `origin`;
/// `None` when some height of `origin..origin+len` is missing.
fn collect_range(decoded: &Vec<Header>, origin: u64) -> (r: Option<Vec<Header>>)
    requires
        origin >= 1,
        forall|j: int| 0 <= j < decoded@.len() ==> (#[trigger] decoded@[j]@).wf(),
    ensures
        r is Some <==> (forall|k: int|
            0 <= k < decoded@.len() ==> #[trigger] view_height_present(
                crate::header::header_views(decoded@),
                origin + k,
            )),
        match r {
            Some(out) => {
                &&& out@.len() == decoded@.len()
                &&& forall|k: int| 0 <= k < out@.len() ==> (#[trigger] out@[k]@).height == origin + k
                &&& forall|k: int|
                    0 <= k < out@.len() ==> is_one_of(
                        (#[trigger] out@[k])@,
                        crate::header::header_views(decoded@),
                    )
                &&& forall|k: int| 0 <= k < out@.len() ==> (#[trigger] out@[k]@).wf()
            },
            None => true,
        },
{
    let ghost dv = crate::header::header_views(decoded@);
    let n = decoded.len();
    let mut out: Vec<Header> = Vec::new();
    let mut k: usize = 0;
    while k < n
        invariant
            k <= n,
            n == decoded@.len(),
            dv == crate::header::header_views(decoded@),
            origin >= 1,
            forall|j: int| 0 <= j < n ==> (#[trigger] decoded@[j]@).wf(),
            out@.len() == k,
            forall|j: int| 0 <= j < k ==> (#[trigger] out@[j]@).height == origin + j,
            forall|j: int| 0 <= j < k ==> is_one_of((#[trigger] out@[j])@, dv),
            forall|j: int| 0 <= j < k ==> (#[trigger] out@[j]@).wf(),
        decreases n - k,
    {
        let mut found: bool = false;
        let mut m: usize = 0;
        while m < n && !found
            invariant
                m <= n,
                k < n,
                n == decoded@.len(),
                found ==> m < n && decoded@[m as int]@.height >= origin && decoded@[m as int]@.height
                    - origin == k,
                !found ==> forall|j: int|
                    0 <= j < m ==> !((#[trigger] decoded@[j]@).height >= origin && decoded@[j]@.height
                        - origin == k),
            decreases n - m, (if found { 0int } else { 1int }),
        {
            let h = decoded[m].height();
            if h >= origin && h - origin == k as u64 {
                found = true;
            } else {
                m = m + 1;
            }
        }
        if !found {
            proof {
                assert forall|i2: int| 0 <= i2 < n implies (#[trigger] dv[i2]).height != origin
                    + k by {
                    assert(dv[i2] == decoded@[i2]@);
                    assert(!(decoded@[i2]@.height >= origin && decoded@[i2]@.height - origin == k));
                }
                assert(!view_height_present(dv, origin + k));
            }
            return None;
        }
        out.push(decoded[m].dup());
        k = k + 1;
        proof {
            assert(dv[m as int] == decoded@[m as int]@);
            assert(out@[k - 1]@ == dv[m as int]);
            assert(is_one_of(out@[k - 1]@, dv));
        }
    }
    proof {
        assert forall|k2: int| 0 <= k2 < n implies #[trigger] view_height_present(
            dv,
            origin + k2,
        ) by {
            assert(is_one_of(out@[k2]@, dv));
            let j = choose|j: int| 0 <= j < dv.len() && (#[trigger] dv[j]) == out@[k2]@;
            assert(dv[j].height == origin + k2);
        }
    }
    Some(out)
}

/// Decode a reply and verify it against the request it answers.
///
/// On success the returned headers are intrinsically valid, sorted by
/// ascending height, and conform to the request's shape; adjacency and
/// signature verification against an anchor are the caller's concern.
/// Success happens exactly on the replies accepted by [`spec_accepted`].
#[verifier::rlimit(20)]
pub fn decode_and_verify_responses(request: &HeaderRequest, responses: &Vec<HeaderResponse>) -> (r:
    Result<Vec<Header>, P2pError>)
    requires
        request.spec_valid(),
    ensures
        r is Ok <==> spec_accepted(*request, responses@),
        match r {
            Ok(v) => {
                &&& forall|k: int| 0 <= k < v@.len() ==> (#[trigger] v@[k]@).wf()
                &&& forall|k: int| 0 <= k < v@.len() ==> is_resp_of((#[trigger] v@[k])@, responses@)
                &&& forall|k: int| 0 < k < v@.len() ==> (#[trigger] v@[k]@).height > v@[k - 1]@.height
                &&& match request.data {
                    Some(RequestData::Origin(origin)) => if origin == 0 {
                        v@.len() == 1
                    } else {
                        v@.len() == request.amount && forall|k: int|
                            0 <= k < v@.len() ==> (#[trigger] v@[k]@).height == origin + k
                    },
                    Some(RequestData::Hash(h)) => v@.len() == 1 && v@[0]@.hash == h@,
                    None => false,
                }
            },
            Err(e) => {
                if responses@.len() == 0 || responses@.len() > request.amount {
                    e == P2pError::InvalidResponse
                } else if exists|i: int|
                    0 <= i < responses@.len() && resp_header(#[trigger] responses@[i]) is None {
                    e == resp_error(responses@[spec_first_undecodable(responses@)])
                } else {
                    e == P2pError::InvalidResponse
                }
            },
        },
{
    let n = responses.len();
    if n == 0 {
        return Err(P2pError::InvalidResponse);
    }
    if n as u64 > request.amount {
        return Err(P2pError::InvalidResponse);
    }
    // Unmarshal and validate each message.
    let mut decoded: Vec<Header> = Vec::new();
    let mut i: usize = 0;
    while i < n
        invariant
            i <= n,
            n == responses@.len(),
            1 <= n,
            n as u64 <= request.amount,
            decoded@.len() == i,
            forall|j: int|
                0 <= j < i ==> Some((#[trigger] decoded@[j])@) == resp_header(responses@[j]),
            forall|j: int| 0 <= j < i ==> (#[trigger] decoded@[j])@.wf(),
        decreases n - i,
    {
        match responses[i].to_extended_header() {
            Ok(h) => {
                decoded.push(h);
            },
            Err(e) => {
                proof {
                    assert(resp_header(responses@[i as int]) is None);
                    assert forall|j: int|
                        0 <= j < i implies resp_header(#[trigger] responses@[j]) is Some by {
                        assert(Some(decoded@[j]@) == resp_header(responses@[j]));
                    }
                    assert(exists|k: int|
                        0 <= k < responses@.len() && resp_header(#[trigger] responses@[k]) is None
                            && (forall|j: int|
                            0 <= j < k ==> resp_header(#[trigger] responses@[j]) is Some)) by {
                        let w = i as int;
                        assert(0 <= w < responses@.len() && resp_header(
                            #[trigger] responses@[w],
                        ) is None && (forall|j: int|
                            0 <= j < w ==> resp_header(#[trigger] responses@[j]) is Some));
                    }
                    let c = spec_first_undecodable(responses@);
                    assert(0 <= c < responses@.len() && resp_header(responses@[c]) is None && (
                    forall|j: int| 0 <= j < c ==> resp_header(#[trigger] responses@[j]) is Some));
                    assert(!(c < i) && !((i as int) < c));
                }
                return Err(e);
            },
        }
        i = i + 1;
    }
    proof {
        assert forall|i2: int|
            0 <= i2 < responses@.len() implies resp_header(#[trigger] responses@[i2]) is Some by {
            assert(Some(decoded@[i2]@) == resp_header(responses@[i2]));
        }
    }
    // Shape checks against the request.
    match &request.data {
        Some(RequestData::Origin(origin)) => {
            let og: u64 = *origin;
            if og == 0 {
                // A head reply may carry any height; length one is forced
                // by the amount bound.
                proof {
                    assert forall|k: int|
                        0 <= k < decoded@.len() implies is_resp_of(
                        (#[trigger] decoded@[k])@,
                        responses@,
                    ) by {
                        assert(resp_header(responses@[k]) == Some(decoded@[k]@));
                    }
                }
                Ok(decoded)
            } else {
                if n as u64 != request.amount {
                    return Err(P2pError::InvalidResponse);
                }
                // Collect the headers in ascending height order; every
                // height of the requested range must be present.
                let ghost dv = crate::header::header_views(decoded@);
                proof {
                    assert forall|x: int|
                        #![trigger view_height_present(dv, x)]
                        #![trigger height_present(responses@, x)]
                        view_height_present(dv, x) <==> height_present(responses@, x) by {
                        if view_height_present(dv, x) {
                            let j = choose|j: int|
                                0 <= j < dv.len() && (#[trigger] dv[j]).height == x;
                            assert(dv[j] == decoded@[j]@);
                            assert(resp_header(responses@[j]) == Some(decoded@[j]@));
                        }
                        if height_present(responses@, x) {
                            let j = choose|j: int|
                                0 <= j < responses@.len() && (#[trigger] resp_header(
                                    responses@[j],
                                ))->0.height == x;
                            assert(Some(decoded@[j]@) == resp_header(responses@[j]));
                            assert(dv[j] == decoded@[j]@);
                        }
                    }
                }
                match collect_range(&decoded, og) {
                    Some(out) => {
                        proof {
                            assert(spec_accepted(*request, responses@));
                            assert forall|k: int|
                                0 <= k < out@.len() implies is_resp_of(
                                (#[trigger] out@[k])@,
                                responses@,
                            ) by {
                                assert(is_one_of(out@[k]@, dv));
                                let j = choose|j: int|
                                    0 <= j < dv.len() && (#[trigger] dv[j]) == out@[k]@;
                                assert(dv[j] == decoded@[j]@);
                                assert(resp_header(responses@[j]) == Some(out@[k]@));
                            }
                        }
                        Ok(out)
                    },
                    None => Err(P2pError::InvalidResponse),
                }
            }
        },
        Some(RequestData::Hash(h)) => {
            // Length one is forced by the amount bound.
            proof {
                assert(Some(decoded@[0]@) == resp_header(responses@[0]));
            }
            if bytes_eq(decoded[0].hash(), h) {
                proof {
                    assert forall|k: int|
                        0 <= k < decoded@.len() implies is_resp_of(
                        (#[trigger] decoded@[k])@,
                        responses@,
                    ) by {
                        assert(resp_header(responses@[k]) == Some(decoded@[k]@));
                    }
                }
                Ok(decoded)
            } else {
                Err(P2pError::InvalidResponse)
            }
        },
        None => Err(P2pError::InvalidResponse),
    }
}

/// How many of the listed headers carry this hash: the vote count of one
/// reported head.
pub open spec fn count_hash(vs: Seq<HeaderView>, hs: Seq<u8>) -> int
    decreases vs.len(),
{
    if vs.len() == 0 {
        0
    } else {
        count_hash(vs.drop_last(), hs) + if vs.last().hash == hs {
            1int
        } else {
            0int
        }
    }
}

/// The election order: height first, then the vote count of the hash.
pub open spec fn head_lex_le(vs: Seq<HeaderView>, a: HeaderView, b: HeaderView) -> bool {
    a.height < b.height || (a.height == b.height && count_hash(vs, a.hash) <= count_hash(
        vs,
        b.hash,
    ))
}

/// Whether any reported head reached the quorum.
pub open spec fn has_quorum(vs: Seq<HeaderView>) -> bool {
    exists|i: int|
        0 <= i < vs.len() && count_hash(vs, (#[trigger] vs[i]).hash) >= MIN_HEAD_RESPONSES
}

/// What the head election returns: one of the candidates, the greatest in
/// election order among those with a quorum if any reached it, else the
/// greatest overall.
pub open spec fn elected(vs: Seq<HeaderView>, h: HeaderView) -> bool {
    &&& exists|i: int| 0 <= i < vs.len() && (#[trigger] vs[i]) == h
    &&& if has_quorum(vs) {
        &&& count_hash(vs, h.hash) >= MIN_HEAD_RESPONSES
        &&& forall|i: int|
            0 <= i < vs.len() && count_hash(vs, (#[trigger] vs[i]).hash) >= MIN_HEAD_RESPONSES
                ==> head_lex_le(vs, vs[i], h)
    } else {
        forall|i: int| 0 <= i < vs.len() ==> head_lex_le(vs, #[trigger] vs[i], h)
    }
}

/// Count the candidates that carry the given hash.
fn count_hash_exec(candidates: &Vec<Header>, hash: &Vec<u8>) -> (r: usize)
    ensures
        r == count_hash(crate::header::header_views(candidates@), hash@),
{
    let ghost vs = crate::header::header_views(candidates@);
    let n = candidates.len();
    let mut c: usize = 0;
    let mut i: usize = 0;
    while i < n
        invariant
            i <= n,
            n == candidates@.len(),
            vs == crate::header::header_views(candidates@),
            c <= i,
            c == count_hash(vs.take(i as int), hash@),
        decreases n - i,
    {
        proof {
            assert(vs.take(i + 1).drop_last() =~= vs.take(i as int));
            assert(vs.take(i + 1).last() == vs[i as int]);
            assert(vs[i as int] == candidates@[i as int]@);
        }
        if bytes_eq(candidates[i].hash(), hash) {
            c = c + 1;
        }
        i = i + 1;
    }
    proof {
        assert(vs.take(n as int) =~= vs);
    }
    c
}

/// Elect the best head from the successful single-header replies of the
/// trusted peers: the highest header reported by at least
/// [`MIN_HEAD_RESPONSES`] peers, or, when no header reached that quorum,
/// the highest reported at all. With no replies the head is not found.
pub fn select_head(candidates: &Vec<Header>) -> (r: Result<Header, P2pError>)
    ensures
        r is Ok <==> candidates@.len() > 0,
        match r {
            Ok(h) => elected(crate::header::header_views(candidates@), h@),
            Err(e) => e == P2pError::HeaderNotFound,
        },
{
    let ghost vs = crate::header::header_views(candidates@);
    let n = candidates.len();
    if n == 0 {
        return Err(P2pError::HeaderNotFound);
    }
    // Vote count per candidate.
    let mut counts: Vec<usize> = Vec::new();
    let mut i: usize = 0;
    while i < n
        invariant
            i <= n,
            n == candidates@.len(),
            vs == crate::header::header_views(candidates@),
            counts@.len() == i,
            forall|j: int|
                0 <= j < i ==> (#[trigger] counts@[j]) == count_hash(vs, vs[j].hash),
        decreases n - i,
    {
        let c = count_hash_exec(candidates, candidates[i].hash());
        proof {
            assert(vs[i as int] == candidates@[i as int]@);
        }
        counts.push(c);
        i = i + 1;
    }
    // One pass tracking the best candidate overall and the best with a
    // quorum behind it.
    let mut best: usize = 0;
    let mut best_quorum: Option<usize> = if counts[0] >= MIN_HEAD_RESPONSES {
        Some(0)
    } else {
        None
    };
    let mut i: usize = 1;
    while i < n
        invariant
            1 <= i <= n,
            n == candidates@.len(),
            vs == crate::header::header_views(candidates@),
            counts@.len() == n,
            forall|j: int|
                0 <= j < n ==> (#[trigger] counts@[j]) == count_hash(vs, vs[j].hash),
            best < i,
            forall|j: int| 0 <= j < i ==> head_lex_le(vs, #[trigger] vs[j], vs[best as int]),
            match best_quorum {
                Some(q) => {
                    &&& q < i
                    &&& count_hash(vs, vs[q as int].hash) >= MIN_HEAD_RESPONSES
                    &&& forall|j: int|
                        0 <= j < i && count_hash(vs, (#[trigger] vs[j]).hash)
                            >= MIN_HEAD_RESPONSES ==> head_lex_le(vs, vs[j], vs[q as int])
                },
                None => forall|j: int|
                    0 <= j < i ==> count_hash(vs, (#[trigger] vs[j]).hash) < MIN_HEAD_RESPONSES,
            },
        decreases n - i,
    {
        proof {
            assert(vs[i as int] == candidates@[i as int]@);
        }
        let hi = candidates[i].height();
        let hb = candidates[best].height();
        if hi > hb || (hi == hb && counts[i] > counts[best]) {
            best = i;
        }
        if counts[i] >= MIN_HEAD_RESPONSES {
            let better = match best_quorum {
                Some(q) => {
                    let hq = candidates[q].height();
                    hi > hq || (hi == hq && counts[i] > counts[q])
                },
                None => true,
            };
            if better {
                best_quorum = Some(i);
            }
        }
        i = i + 1;
    }
    match best_quorum {
        Some(q) => Ok(candidates[q].dup()),
        None => Ok(candidates[best].dup()),
    }
}

/// One in-flight request: what was asked, when it was sent, and the head
/// session it belongs to, if it is part of a head fan-out.
pub struct PendingRequest {
    pub request: HeaderRequest,
    pub started_at: u64,
    pub session: Option<u64>,
}

/// One head fan-out: replies yet to come, and the heads collected so far.
pub struct HeadSession {
    pub id: u64,
    pub remaining: usize,
    pub collected: Vec<Header>,
}

/// What the handler hands back to the waiting caller.
pub enum Delivery {
    /// The outcome of a range or single-header request.
    Range(Result<Vec<Header>, P2pError>),
    /// The outcome of the head session with the given identifier.
    Head(u64, Result<Vec<Header>, P2pError>),
}

/// What dispatching a request did.
pub enum SendOutcome {
    /// The request was answered immediately with an error.
    Reject(P2pError),
    /// The request went out to one peer under one request id.
    SentRange { peer: u64, req_id: u64 },
    /// A head request fanned out to the given trusted peers, one request
    /// id each starting at `first_req_id`, under a new session.
    SentHead { peers: Vec<u64>, first_req_id: u64, session_id: u64 },
}

/// Whether an in-flight request has outlived the timeout at `now`.
pub open spec fn spec_expired(p: PendingRequest, now: u64) -> bool {
    p.started_at >= u64::MAX - TIMEOUT_MS || p.started_at + TIMEOUT_MS <= now
}

/// Number of expired entries of the request table that answer a plain
/// (non-session) request.
pub open spec fn count_expired_plain(rs: Seq<(u64, PendingRequest)>, now: u64) -> int
    decreases rs.len(),
{
    if rs.len() == 0 {
        0
    } else {
        count_expired_plain(rs.drop_last(), now) + if spec_expired(rs.last().1, now)
            && rs.last().1.session is None {
            1int
        } else {
            0int
        }
    }
}

/// Number of range deliveries in a list of deliveries.
pub open spec fn count_range_deliveries(ds: Seq<Delivery>) -> int
    decreases ds.len(),
{
    if ds.len() == 0 {
        0
    } else {
        count_range_deliveries(ds.drop_last()) + if ds.last() matches Delivery::Range(_) {
            1int
        } else {
            0int
        }
    }
}

/// The exchange client: owns the in-flight request table and the head
/// sessions, and validates every reply.
pub struct ExchangeClientHandler {
    reqs: Vec<(u64, PendingRequest)>,
    sessions: Vec<HeadSession>,
    next_req_id: u64,
    next_session_id: u64,
}

impl ExchangeClientHandler {
    pub closed spec fn reqs_view(self) -> Seq<(u64, PendingRequest)> {
        self.reqs@
    }

    pub closed spec fn sessions_view(self) -> Seq<HeadSession> {
        self.sessions@
    }

    pub closed spec fn spec_next_req_id(self) -> u64 {
        self.next_req_id
    }

    pub closed spec fn spec_next_session_id(self) -> u64 {
        self.next_session_id
    }

    /// At most one in-flight request per protocol-assigned request id, at
    /// most one session per session id, and all ids below the counters.
    pub open spec fn wf(self) -> bool {
        &&& forall|i: int, j: int|
            0 <= i < j < self.reqs_view().len() ==> (#[trigger] self.reqs_view()[i]).0 != (
            #[trigger] self.reqs_view()[j]).0
        &&& forall|i: int|
            0 <= i < self.reqs_view().len() ==> (#[trigger] self.reqs_view()[i]).0
                < self.spec_next_req_id()
        &&& forall|i: int, j: int|
            0 <= i < j < self.sessions_view().len() ==> (#[trigger] self.sessions_view()[i]).id != (
            #[trigger] self.sessions_view()[j]).id
        &&& forall|i: int|
            0 <= i < self.sessions_view().len() ==> (#[trigger] self.sessions_view()[i]).id
                < self.spec_next_session_id()
        &&& forall|i: int|
            0 <= i < self.reqs_view().len() ==> (#[trigger] self.reqs_view()[i]).1.request.spec_valid()
        &&& forall|i: int|
            0 <= i < self.reqs_view().len() && (#[trigger] self.reqs_view()[i]).1.session is Some
                ==> self.reqs_view()[i].1.request.spec_is_head()
    }

    pub open spec fn spec_pending_req(self, req_id: u64) -> PendingRequest {
        self.reqs_view()[choose|i: int|
            0 <= i < self.reqs_view().len() && (#[trigger] self.reqs_view()[i]).0 == req_id].1
    }

    pub open spec fn spec_pending(self, req_id: u64) -> bool {
        exists|i: int| 0 <= i < self.reqs_view().len() && (#[trigger] self.reqs_view()[i]).0 == req_id
    }

    pub open spec fn spec_has_session(self, sid: u64) -> bool {
        exists|i: int|
            0 <= i < self.sessions_view().len() && (#[trigger] self.sessions_view()[i]).id == sid
    }

    /// The head session with the given identifier.
    pub open spec fn spec_session(self, sid: u64) -> HeadSession
        recommends
            self.spec_has_session(sid),
    {
        self.sessions_view()[choose|i: int|
            0 <= i < self.sessions_view().len() && (#[trigger] self.sessions_view()[i]).id == sid]
    }

    /// Session ids are unique, so `spec_session` returns the session at any
    /// index that carries its id.
    proof fn lemma_session_at(self, i: int)
        requires
            self.wf(),
            0 <= i < self.sessions_view().len(),
        ensures
            self.spec_has_session(self.sessions_view()[i].id),
            self.spec_session(self.sessions_view()[i].id) == self.sessions_view()[i],
    {
        let sid = self.sessions_view()[i].id;
        assert(self.spec_has_session(sid));
        let j = choose|j: int|
            0 <= j < self.sessions_view().len() && (#[trigger] self.sessions_view()[j]).id == sid;
        assert(!(j < i) && !(i < j));
    }

    /// A fresh handler with no requests in flight.
    pub fn new() -> (r: ExchangeClientHandler)
        ensures
            r.wf(),
            r.reqs_view().len() == 0,
            r.sessions_view().len() == 0,
    {
        ExchangeClientHandler {
            reqs: Vec::new(),
            sessions: Vec::new(),
            next_req_id: 0,
            next_session_id: 0,
        }
    }

    /// How many requests are in flight.
    pub fn num_pending(&self) -> (r: usize)
        ensures
            r == self.reqs_view().len(),
    {
        self.reqs.len()
    }

    /// Classify and dispatch a request: invalid requests are rejected at
    /// once; a head request fans out to up to [`MAX_PEERS`] trusted peers;
    /// anything else goes to the best peer. With no candidate peers the
    /// caller gets `NoConnectedPeers`.
    pub fn on_send_request(
        &mut self,
        tracker: &crate::peer_tracker::PeerTracker,
        request: HeaderRequest,
        now: u64,
    ) -> (r: SendOutcome)
        requires
            old(self).wf(),
            tracker.wf(),
            now < u64::MAX - TIMEOUT_MS,
        ensures
            final(self).wf(),
            final(self).sessions_view().len() >= old(self).sessions_view().len(),
            match r {
                SendOutcome::Reject(e) => {
                    &&& *final(self) == *old(self)
                    &&& (e == P2pError::InvalidRequest ==> (!request.spec_valid()
                        || request.amount > usize::MAX))
                    &&& (e == P2pError::NoConnectedPeers ==> request.spec_valid())
                    &&& (e is InvalidRequest || e is NoConnectedPeers)
                    // Dispatch is owed: a valid request is only ever turned
                    // away for want of candidate peers or of request ids.
                    &&& (e == P2pError::NoConnectedPeers ==> (if request.spec_is_head() {
                        crate::peer_tracker::count_trusted_connected(tracker@) == 0 || old(
                            self,
                        ).spec_next_req_id() > u64::MAX - (MAX_PEERS as u64) || old(
                            self,
                        ).spec_next_session_id() == u64::MAX
                    } else {
                        crate::peer_tracker::count_connected(tracker@) == 0 || old(
                            self,
                        ).spec_next_req_id() == u64::MAX
                    }))
                },
                SendOutcome::SentRange { peer, req_id } => {
                    &&& request.spec_valid()
                    &&& !request.spec_is_head()
                    &&& tracker.spec_connected(peer)
                    &&& req_id == old(self).spec_next_req_id()
                    &&& !old(self).spec_pending(req_id)
                    &&& final(self).spec_pending(req_id)
                    &&& final(self).reqs_view().len() == old(self).reqs_view().len() + 1
                    &&& forall|i: int|
                        0 <= i < old(self).reqs_view().len() ==> final(self).reqs_view()[i] == old(
                            self,
                        ).reqs_view()[i]
                    &&& final(self).reqs_view().last().1.started_at == now
                    &&& final(self).reqs_view().last().1.session is None
                },
                SendOutcome::SentHead { peers, first_req_id, session_id } => {
                    &&& request.spec_valid()
                    &&& request.spec_is_head()
                    &&& peers@.len() >= 1
                    &&& peers@.len() <= MAX_PEERS
                    &&& forall|k: int|
                        0 <= k < peers@.len() ==> tracker.spec_trusted_connected(
                            #[trigger] peers@[k],
                        )
                    &&& first_req_id == old(self).spec_next_req_id()
                    &&& final(self).reqs_view().len() == old(self).reqs_view().len() + peers@.len()
                    &&& forall|i: int|
                        0 <= i < old(self).reqs_view().len() ==> final(self).reqs_view()[i] == old(
                            self,
                        ).reqs_view()[i]
                    &&& forall|k: int|
                        0 <= k < peers@.len() ==> (#[trigger] final(self).reqs_view()[old(
                            self,
                        ).reqs_view().len() + k]).1.started_at == now && final(self).reqs_view()[old(
                            self,
                        ).reqs_view().len() + k].1.session == Some(session_id)
                    &&& final(self).sessions_view().len() == old(self).sessions_view().len() + 1
                    &&& final(self).sessions_view().last().id == session_id
                    &&& final(self).sessions_view().last().remaining == peers@.len()
                    &&& final(self).sessions_view().last().collected@.len() == 0
                },
            },
    {
        if !request.is_valid() {
            return SendOutcome::Reject(P2pError::InvalidRequest);
        }
        if request.amount > usize::MAX as u64 {
            return SendOutcome::Reject(P2pError::InvalidRequest);
        }
        if request.is_head_request() {
            // Head requests go to trusted peers only.
            let peers = tracker.trusted_n_peers(MAX_PEERS);
            if peers.len() == 0 {
                return SendOutcome::Reject(P2pError::NoConnectedPeers);
            }
            if self.next_req_id > u64::MAX - (MAX_PEERS as u64) || self.next_session_id
                == u64::MAX {
                // The id space is exhausted; treat as no candidates.
                return SendOutcome::Reject(P2pError::NoConnectedPeers);
            }
            let session_id = self.next_session_id;
            self.next_session_id = self.next_session_id + 1;
            let first_req_id = self.next_req_id;
            let ghost r0 = self.reqs_view();
            let k = peers.len();
            let mut j: usize = 0;
            while j < k
                invariant
                    j <= k,
                    self.wf(),
                    request.spec_valid(),
                    request.spec_is_head(),
                    self.reqs_view().len() == r0.len() + j,
                    self.spec_next_req_id() == first_req_id + j,
                    first_req_id + k <= u64::MAX,
                    forall|i: int| 0 <= i < r0.len() ==> self.reqs_view()[i] == r0[i],
                    forall|i: int|
                        0 <= i < j ==> (#[trigger] self.reqs_view()[r0.len() + i]).1.started_at
                            == now && self.reqs_view()[r0.len() + i].1.session == Some(session_id),
                    self.sessions_view() == old(self).sessions_view(),
                    self.spec_next_session_id() == session_id + 1,
                    forall|i: int|
                        0 <= i < self.sessions_view().len() ==> (
                        #[trigger] self.sessions_view()[i]).id < session_id,
                    forall|i: int, j2: int|
                        0 <= i < j2 < self.sessions_view().len() ==> (
                        #[trigger] self.sessions_view()[i]).id != (
                        #[trigger] self.sessions_view()[j2]).id,
                decreases k - j,
            {
                let req_id = self.next_req_id;
                self.next_req_id = self.next_req_id + 1;
                self.reqs.push(
                    (
                        req_id,
                        PendingRequest {
                            request: request.dup(),
                            started_at: now,
                            session: Some(session_id),
                        },
                    ),
                );
                proof {
                    assert forall|i: int, j2: int|
                        0 <= i < j2 < self.reqs_view().len() implies (
                    #[trigger] self.reqs_view()[i]).0 != (#[trigger] self.reqs_view()[j2]).0 by {
                        if j2 == self.reqs_view().len() - 1 {
                            assert(self.reqs_view()[i].0 < req_id);
                        }
                    }
                    let last = self.reqs_view().len() - 1;
                    assert(self.reqs_view()[last].1.request.spec_valid()
                        && self.reqs_view()[last].1.request.spec_is_head());
                    assert forall|i: int|
                        0 <= i < self.reqs_view().len() implies ((
                    #[trigger] self.reqs_view()[i]).1.request.spec_valid() && (self.reqs_view()[i].1.session is Some
                        ==> self.reqs_view()[i].1.request.spec_is_head())) by {
                        if i < last {
                            assert(self.reqs_view()[i] == old(self).reqs_view()[i] || true);
                        }
                    }
                }
                j = j + 1;
            }
            self.sessions.push(HeadSession { id: session_id, remaining: k, collected: Vec::new() });
            proof {
                assert forall|i: int, j2: int|
                    0 <= i < j2 < self.sessions_view().len() implies (
                #[trigger] self.sessions_view()[i]).id != (#[trigger] self.sessions_view()[j2]).id by {
                    if j2 == self.sessions_view().len() - 1 {
                        assert(self.sessions_view()[i] == old(self).sessions_view()[i]);
                    }
                }
            }
            SendOutcome::SentHead { peers, first_req_id, session_id }
        } else {
            let peer = match tracker.best_peer() {
                Some(p) => p,
                None => {
                    return SendOutcome::Reject(P2pError::NoConnectedPeers);
                },
            };
            if self.next_req_id == u64::MAX {
                return SendOutcome::Reject(P2pError::NoConnectedPeers);
            }
            let req_id = self.next_req_id;
            self.next_req_id = self.next_req_id + 1;
            self.reqs.push(
                (req_id, PendingRequest { request, started_at: now, session: None }),
            );
            proof {
                assert forall|i: int, j2: int|
                    0 <= i < j2 < self.reqs_view().len() implies (#[trigger] self.reqs_view()[i]).0
                    != (#[trigger] self.reqs_view()[j2]).0 by {
                    if j2 == self.reqs_view().len() - 1 {
                        assert(self.reqs_view()[i] == old(self).reqs_view()[i]);
                    }
                }
                assert(self.spec_pending(req_id)) by {
                    assert(self.reqs_view().last().0 == req_id);
                }
                assert forall|i: int|
                    0 <= i < self.reqs_view().len() implies ((
                #[trigger] self.reqs_view()[i]).1.request.spec_valid() && (self.reqs_view()[i].1.session is Some
                    ==> self.reqs_view()[i].1.request.spec_is_head())) by {
                    if i < self.reqs_view().len() - 1 {
                        assert(self.reqs_view()[i] == old(self).reqs_view()[i]);
                    }
                }
            }
            SendOutcome::SentRange { peer, req_id }
        }
    }

    /// Remove and return the in-flight request with this id, if any.
    fn take_pending(&mut self, req_id: u64) -> (r: Option<PendingRequest>)
        requires
            old(self).wf(),
        ensures
            final(self).wf(),
            final(self).sessions_view() == old(self).sessions_view(),
            final(self).spec_next_req_id() == old(self).spec_next_req_id(),
            final(self).spec_next_session_id() == old(self).spec_next_session_id(),
            !final(self).spec_pending(req_id),
            forall|x: u64|
                x != req_id ==> (final(self).spec_pending(x) <==> old(self).spec_pending(x)),
            forall|x: u64|
                x != req_id && old(self).spec_pending(x) ==> final(self).spec_pending_req(x)
                    == old(self).spec_pending_req(x),
            match r {
                Some(p) => {
                    &&& old(self).spec_pending(req_id)
                    &&& p == old(self).spec_pending_req(req_id)
                    &&& final(self).reqs_view().len() + 1 == old(self).reqs_view().len()
                },
                None => !old(self).spec_pending(req_id) && *final(self) == *old(self),
            },
    {
        let ghost s0 = *self;
        let mut i: usize = 0;
        while i < self.reqs.len()
            invariant
                *self == s0,
                s0 == *old(self),
                self.wf(),
                i <= self.reqs_view().len(),
                forall|j: int| 0 <= j < i ==> (#[trigger] self.reqs_view()[j]).0 != req_id,
            decreases self.reqs_view().len() - i,
        {
            if self.reqs[i].0 == req_id {
                let ghost pre = self.reqs_view();
                let (_, p) = self.reqs.remove(i);
                proof {
                    assert(pre[i as int].0 == req_id);
                    let q = choose|q: int|
                        0 <= q < pre.len() && (#[trigger] pre[q]).0 == req_id;
                    assert(!(q < i) && !((i as int) < q));
                    assert(self.reqs_view() =~= pre.remove(i as int));
                    assert forall|a: int, b: int|
                        0 <= a < b < self.reqs_view().len() implies (
                    #[trigger] self.reqs_view()[a]).0 != (#[trigger] self.reqs_view()[b]).0 by {
                        let oa: int = if a < i { a } else { a + 1 };
                        let ob: int = if b < i { b } else { b + 1 };
                        assert(self.reqs_view()[a] == pre[oa] && self.reqs_view()[b] == pre[ob]);
                    }
                    assert forall|x: u64|
                        x != req_id implies (self.spec_pending(x) <==> s0.spec_pending(x)) by {
                        if self.spec_pending(x) {
                            let j = choose|j: int|
                                0 <= j < self.reqs_view().len() && (
                                #[trigger] self.reqs_view()[j]).0 == x;
                            let o: int = if j < i { j } else { j + 1 };
                            assert(pre[o] == self.reqs_view()[j]);
                        }
                        if s0.spec_pending(x) {
                            let j = choose|j: int|
                                0 <= j < pre.len() && (#[trigger] pre[j]).0 == x;
                            assert(j != i);
                            let o: int = if j < i { j } else { j - 1 };
                            assert(self.reqs_view()[o] == pre[j]);
                        }
                    }
                    assert forall|x: u64|
                        x != req_id && s0.spec_pending(x) implies self.spec_pending_req(x)
                        == s0.spec_pending_req(x) by {
                        let j = choose|j: int| 0 <= j < pre.len() && (#[trigger] pre[j]).0 == x;
                        let j2 = choose|j2: int|
                            0 <= j2 < pre.len() && (#[trigger] pre[j2]).0 == x;
                        assert(!(j < j2) && !(j2 < j));
                        assert(j != i);
                        let o: int = if j < i { j } else { j - 1 };
                        assert(self.reqs_view()[o] == pre[j]);
                        let o2 = choose|o2: int|
                            0 <= o2 < self.reqs_view().len() && (#[trigger] self.reqs_view()[o2]).0
                                == x;
                        assert(!(o2 < o) && !(o < o2));
                    }
                    if self.spec_pending(req_id) {
                        let j = choose|j: int|
                            0 <= j < self.reqs_view().len() && (#[trigger] self.reqs_view()[j]).0
                                == req_id;
                        let o: int = if j < i { j } else { j + 1 };
                        assert(pre[o] == self.reqs_view()[j]);
                        assert(o != i);
                    }
                    assert forall|j: int|
                        0 <= j < self.reqs_view().len() implies ((
                    #[trigger] self.reqs_view()[j]).0 < self.spec_next_req_id()
                        && self.reqs_view()[j].1.request.spec_valid() && (self.reqs_view()[j].1.session is Some
                        ==> self.reqs_view()[j].1.request.spec_is_head())) by {
                        let o: int = if j < i { j } else { j + 1 };
                        assert(self.reqs_view()[j] == pre[o]);
                    }
                    assert forall|x: int, y: int|
                        0 <= x < y < self.sessions_view().len() implies (
                    #[trigger] self.sessions_view()[x]).id != (
                    #[trigger] self.sessions_view()[y]).id by {
                        assert(self.sessions_view()[x] == s0.sessions_view()[x]);
                        assert(self.sessions_view()[y] == s0.sessions_view()[y]);
                    }
                    assert forall|x: int|
                        0 <= x < self.sessions_view().len() implies (
                    #[trigger] self.sessions_view()[x]).id < self.spec_next_session_id() by {
                        assert(self.sessions_view()[x] == s0.sessions_view()[x]);
                    }
                }
                return Some(p);
            }
            i = i + 1;
        }
        None
    }

    /// Feed one per-peer head reply (or failure) into its session: the
    /// header, if any, joins the collected votes and one outstanding reply
    /// is accounted for; when the last reply is in, the session is closed
    /// and the election over the collected votes is delivered.
    fn resolve_session(&mut self, session_id: u64, header: Option<Header>) -> (r: Option<Delivery>)
        requires
            old(self).wf(),
        ensures
            final(self).wf(),
            final(self).reqs_view() == old(self).reqs_view(),
            final(self).spec_next_req_id() == old(self).spec_next_req_id(),
            final(self).spec_next_session_id() == old(self).spec_next_session_id(),
            !old(self).spec_has_session(session_id) ==> (*final(self) == *old(self) && r is None),
            forall|x: u64|
                x != session_id ==> ((final(self).spec_has_session(x) <==> old(
                    self,
                ).spec_has_session(x)) && (old(self).spec_has_session(x)
                    ==> final(self).spec_session(x) == old(self).spec_session(x))),
            old(self).spec_has_session(session_id) ==> {
                let s = old(self).spec_session(session_id);
                let votes = match header {
                    Some(h) => s.collected@.push(h),
                    None => s.collected@,
                };
                if s.remaining <= 1 {
                    &&& !final(self).spec_has_session(session_id)
                    &&& r matches Some(Delivery::Head(sid, res)) && sid == session_id && (match res {
                        Ok(v) => v@.len() == 1 && elected(
                            crate::header::header_views(votes),
                            v@[0]@,
                        ) && votes.len() > 0,
                        Err(e) => e == P2pError::HeaderNotFound && votes.len() == 0,
                    })
                } else {
                    &&& final(self).spec_has_session(session_id)
                    &&& final(self).spec_session(session_id).id == session_id
                    &&& final(self).spec_session(session_id).remaining == s.remaining - 1
                    &&& final(self).spec_session(session_id).collected@ == votes
                    &&& r is None
                }
            },
    {
        let ghost s0 = *self;
        let mut p: usize = 0;
        let n = self.sessions.len();
        while p < n
            invariant
                *self == s0,
                s0 == *old(self),
                self.wf(),
                n == self.sessions_view().len(),
                p <= n,
                forall|j: int|
                    0 <= j < p ==> (#[trigger] self.sessions_view()[j]).id != session_id,
            decreases n - p,
        {
            if self.sessions[p].id == session_id {
                proof {
                    s0.lemma_session_at(p as int);
                }
                let ghost pre = self.sessions_view();
                let mut sess = self.sessions.remove(p);
                proof {
                    assert(self.sessions_view() =~= pre.remove(p as int));
                    assert forall|a: int, b: int|
                        0 <= a < b < self.sessions_view().len() implies (
                    #[trigger] self.sessions_view()[a]).id != (
                    #[trigger] self.sessions_view()[b]).id by {
                        let oa: int = if a < p { a } else { a + 1 };
                        let ob: int = if b < p { b } else { b + 1 };
                        assert(self.sessions_view()[a] == pre[oa] && self.sessions_view()[b]
                            == pre[ob]);
                    }
                    assert forall|a: int|
                        0 <= a < self.sessions_view().len() implies (
                    #[trigger] self.sessions_view()[a]).id < self.spec_next_session_id() by {
                        let oa: int = if a < p { a } else { a + 1 };
                        assert(self.sessions_view()[a] == pre[oa]);
                    }
                    // The removed session was the one with this id.
                    assert(sess == pre[p as int]);
                    assert(!self.spec_has_session(session_id)) by {
                        if self.spec_has_session(session_id) {
                            let j = choose|j: int|
                                0 <= j < self.sessions_view().len() && (
                                #[trigger] self.sessions_view()[j]).id == session_id;
                            let o: int = if j < p {
                                j
                            } else {
                                j + 1
                            };
                            assert(self.sessions_view()[j] == pre[o]);
                            assert(o != p);
                        }
                    }
                    assert forall|x: u64|
                        x != session_id implies ((self.spec_has_session(x) <==> s0.spec_has_session(
                        x,
                    )) && (s0.spec_has_session(x) ==> self.spec_session(x) == s0.spec_session(
                        x,
                    ))) by {
                        if s0.spec_has_session(x) {
                            let j = choose|j: int|
                                0 <= j < pre.len() && (#[trigger] pre[j]).id == x;
                            s0.lemma_session_at(j);
                            assert(j != p);
                            let o: int = if j < p {
                                j
                            } else {
                                j - 1
                            };
                            assert(self.sessions_view()[o] == pre[j]);
                            self.lemma_session_at(o);
                        }
                        if self.spec_has_session(x) {
                            let j = choose|j: int|
                                0 <= j < self.sessions_view().len() && (
                                #[trigger] self.sessions_view()[j]).id == x;
                            let o: int = if j < p {
                                j
                            } else {
                                j + 1
                            };
                            assert(self.sessions_view()[j] == pre[o]);
                            assert(s0.spec_has_session(x));
                        }
                    }
                }
                if let Some(h) = header {
                    sess.collected.push(h);
                }
                if sess.remaining <= 1 {
                    // All replies are in: elect the best head.
                    let result = match select_head(&sess.collected) {
                        Ok(h) => {
                            let mut v: Vec<Header> = Vec::new();
                            v.push(h);
                            Ok(v)
                        },
                        Err(e) => Err(e),
                    };
                    return Some(Delivery::Head(session_id, result));
                }
                sess.remaining = sess.remaining - 1;
                let ghost mid = self.sessions_view();
                let ghost kept = sess;
                self.sessions.insert(p, sess);
                proof {
                    assert(self.sessions_view() =~= pre.update(p as int, kept));
                    assert(kept.id == session_id);
                    assert forall|a: int, b: int|
                        0 <= a < b < self.sessions_view().len() implies (
                    #[trigger] self.sessions_view()[a]).id != (
                    #[trigger] self.sessions_view()[b]).id by {
                        if a != p {
                            assert(self.sessions_view()[a] == pre[a]);
                        }
                        if b != p {
                            assert(self.sessions_view()[b] == pre[b]);
                        }
                        assert(self.sessions_view()[p as int].id == pre[p as int].id);
                    }
                    assert forall|a: int|
                        0 <= a < self.sessions_view().len() implies (
                    #[trigger] self.sessions_view()[a]).id < self.spec_next_session_id() by {
                        if a != p {
                            assert(self.sessions_view()[a] == pre[a]);
                        } else {
                            assert(self.sessions_view()[a].id == pre[p as int].id);
                        }
                    }
                    self.lemma_session_at(p as int);
                    assert forall|x: u64|
                        x != session_id implies ((self.spec_has_session(x) <==> s0.spec_has_session(
                        x,
                    )) && (s0.spec_has_session(x) ==> self.spec_session(x) == s0.spec_session(
                        x,
                    ))) by {
                        if s0.spec_has_session(x) {
                            let j = choose|j: int|
                                0 <= j < pre.len() && (#[trigger] pre[j]).id == x;
                            s0.lemma_session_at(j);
                            assert(j != p);
                            assert(self.sessions_view()[j] == pre[j]);
                            self.lemma_session_at(j);
                        }
                        if self.spec_has_session(x) {
                            let j = choose|j: int|
                                0 <= j < self.sessions_view().len() && (
                                #[trigger] self.sessions_view()[j]).id == x;
                            assert(j != p);
                            assert(self.sessions_view()[j] == pre[j]);
                            assert(s0.spec_has_session(x));
                        }
                    }
                }
                return None;
            }
            p = p + 1;
        }
        proof {
            assert(!s0.spec_has_session(session_id));
        }
        None
    }

    /// Validate a reply against its in-flight request and deliver the
    /// outcome: range requests get their decoded and verified headers (or
    /// the exact error); per-peer head replies feed their session, whose
    /// election is delivered when the last reply is in. A reply to an
    /// unknown request id is discarded.
    pub fn on_response_received(&mut self, req_id: u64, responses: &Vec<HeaderResponse>) -> (r:
        Option<Delivery>)
        requires
            old(self).wf(),
        ensures
            final(self).wf(),
            !final(self).spec_pending(req_id),
            forall|x: u64|
                x != req_id ==> (final(self).spec_pending(x) <==> old(self).spec_pending(x)),
            forall|x: u64|
                x != req_id && old(self).spec_pending(x) ==> final(self).spec_pending_req(x)
                    == old(self).spec_pending_req(x),
            !old(self).spec_pending(req_id) ==> (*final(self) == *old(self) && r is None),
            old(self).spec_pending(req_id) && old(self).spec_pending_req(req_id).session is None
                ==> (match r {
                Some(d) => d matches Delivery::Range(res) && (res is Ok <==> spec_accepted(
                    old(self).spec_pending_req(req_id).request,
                    responses@,
                )),
                None => false,
            }),
            final(self).spec_next_session_id() == old(self).spec_next_session_id(),
            old(self).spec_pending(req_id) && old(self).spec_pending_req(req_id).session is None
                ==> final(self).sessions_view() == old(self).sessions_view(),
            // A per-peer head reply feeds its session: an accepted single
            // header joins the votes, anything else counts as a failure;
            // the last reply in closes the session and delivers the
            // election over the collected votes.
            old(self).spec_pending(req_id) && old(self).spec_pending_req(req_id).session is Some
                ==> {
                let sid = old(self).spec_pending_req(req_id).session->0;
                &&& (!old(self).spec_has_session(sid) ==> (r is None && final(self).sessions_view()
                    == old(self).sessions_view()))
                &&& forall|x: u64|
                    x != sid ==> ((final(self).spec_has_session(x) <==> old(self).spec_has_session(
                        x,
                    )) && (old(self).spec_has_session(x) ==> final(self).spec_session(x) == old(
                        self,
                    ).spec_session(x)))
                &&& (old(self).spec_has_session(sid) ==> {
                    let s = old(self).spec_session(sid);
                    let votes_views = if spec_accepted(
                        old(self).spec_pending_req(req_id).request,
                        responses@,
                    ) {
                        crate::header::header_views(s.collected@).push(
                            resp_header(responses@[0])->0,
                        )
                    } else {
                        crate::header::header_views(s.collected@)
                    };
                    if s.remaining <= 1 {
                        &&& !final(self).spec_has_session(sid)
                        &&& r matches Some(Delivery::Head(sid2, res)) && sid2 == sid && (match res {
                            Ok(v) => v@.len() == 1 && elected(votes_views, v@[0]@)
                                && votes_views.len() > 0,
                            Err(e) => e == P2pError::HeaderNotFound && votes_views.len() == 0,
                        })
                    } else {
                        &&& final(self).spec_has_session(sid)
                        &&& final(self).spec_session(sid).remaining == s.remaining - 1
                        &&& crate::header::header_views(final(self).spec_session(sid).collected@)
                            == votes_views
                        &&& r is None
                    }
                })
            },
    {
        let p = match self.take_pending(req_id) {
            Some(p) => p,
            None => {
                return None;
            },
        };
        match p.session {
            None => Some(Delivery::Range(decode_and_verify_responses(&p.request, responses))),
            Some(session_id) => {
                // A per-peer head reply: only an intrinsically valid single
                // header joins the vote; anything else counts as a failure.
                let ghost m = *self;
                proof {
                    lemma_sessions_transfer(m, *old(self));
                }
                let header = match decode_and_verify_responses(&p.request, responses) {
                    Ok(mut v) => {
                        proof {
                            let i = choose|i: int|
                                0 <= i < responses@.len() && (#[trigger] resp_header(
                                    responses@[i],
                                )) == Some(v@[0]@);
                            assert(i == 0);
                        }
                        Some(v.remove(0))
                    },
                    Err(_) => None,
                };
                let ghost hopt = header;
                let out = self.resolve_session(session_id, header);
                proof {
                    if m.spec_has_session(session_id) {
                        let s = m.spec_session(session_id);
                        match hopt {
                            Some(h) => {
                                assert(crate::header::header_views(s.collected@.push(h))
                                    =~= crate::header::header_views(s.collected@).push(h@));
                            },
                            None => {},
                        }
                    }
                }
                out
            },
        }
    }

    /// Surface a transport failure to the waiting caller, or feed it into
    /// the head session the failed request belonged to.
    pub fn on_failure(&mut self, req_id: u64, error: OutboundFailureKind) -> (r: Option<Delivery>)
        requires
            old(self).wf(),
        ensures
            final(self).wf(),
            !final(self).spec_pending(req_id),
            forall|x: u64|
                x != req_id ==> (final(self).spec_pending(x) <==> old(self).spec_pending(x)),
            forall|x: u64|
                x != req_id && old(self).spec_pending(x) ==> final(self).spec_pending_req(x)
                    == old(self).spec_pending_req(x),
            !old(self).spec_pending(req_id) ==> (*final(self) == *old(self) && r is None),
            old(self).spec_pending(req_id) && old(self).spec_pending_req(req_id).session is None
                ==> (match r {
                Some(d) => d matches Delivery::Range(res) && res == Err::<Vec<Header>, P2pError>(
                    P2pError::OutboundFailure(error),
                ),
                None => false,
            }),
            final(self).spec_next_session_id() == old(self).spec_next_session_id(),
            old(self).spec_pending(req_id) && old(self).spec_pending_req(req_id).session is None
                ==> final(self).sessions_view() == old(self).sessions_view(),
            // A failed per-peer head request counts as a missing vote; the
            // last reply in still closes the session and delivers the
            // election over whatever was collected.
            old(self).spec_pending(req_id) && old(self).spec_pending_req(req_id).session is Some
                ==> {
                let sid = old(self).spec_pending_req(req_id).session->0;
                &&& (!old(self).spec_has_session(sid) ==> (r is None && final(self).sessions_view()
                    == old(self).sessions_view()))
                &&& forall|x: u64|
                    x != sid ==> ((final(self).spec_has_session(x) <==> old(self).spec_has_session(
                        x,
                    )) && (old(self).spec_has_session(x) ==> final(self).spec_session(x) == old(
                        self,
                    ).spec_session(x)))
                &&& (old(self).spec_has_session(sid) ==> {
                    let s = old(self).spec_session(sid);
                    let votes_views = crate::header::header_views(s.collected@);
                    if s.remaining <= 1 {
                        &&& !final(self).spec_has_session(sid)
                        &&& r matches Some(Delivery::Head(sid2, res)) && sid2 == sid && (match res {
                            Ok(v) => v@.len() == 1 && elected(votes_views, v@[0]@)
                                && votes_views.len() > 0,
                            Err(e) => e == P2pError::HeaderNotFound && votes_views.len() == 0,
                        })
                    } else {
                        &&& final(self).spec_has_session(sid)
                        &&& final(self).spec_session(sid).remaining == s.remaining - 1
                        &&& crate::header::header_views(final(self).spec_session(sid).collected@)
                            == votes_views
                        &&& r is None
                    }
                })
            },
    {
        let p = match self.take_pending(req_id) {
            Some(p) => p,
            None => {
                return None;
            },
        };
        match p.session {
            None => Some(Delivery::Range(Err(P2pError::OutboundFailure(error)))),
            Some(session_id) => {
                let ghost m = *self;
                proof {
                    lemma_sessions_transfer(m, *old(self));
                }
                self.resolve_session(session_id, None)
            },
        }
    }

    /// Fail every request that has been in flight for [`TIMEOUT_MS`] or
    /// longer: expired plain requests each deliver a timeout to their
    /// caller, expired per-peer head requests feed their session as missing
    /// votes. Every other request stays in flight untouched, so after the
    /// sweep no in-flight request is older than the timeout.
    #[verifier::rlimit(100)]
    pub fn prune_expired_requests(&mut self, now: u64) -> (r: Vec<Delivery>)
        requires
            old(self).wf(),
        ensures
            final(self).wf(),
            final(self).spec_next_req_id() == old(self).spec_next_req_id(),
            final(self).spec_next_session_id() == old(self).spec_next_session_id(),
            forall|i: int|
                0 <= i < final(self).reqs_view().len() ==> !spec_expired(
                    (#[trigger] final(self).reqs_view()[i]).1,
                    now,
                ),
            // Exactly the expired requests are gone; the rest are unchanged.
            forall|x: u64|
                final(self).spec_pending(x) <==> (old(self).spec_pending(x) && !spec_expired(
                    old(self).spec_pending_req(x),
                    now,
                )),
            forall|x: u64|
                final(self).spec_pending(x) ==> final(self).spec_pending_req(x) == old(
                    self,
                ).spec_pending_req(x),
            // One timeout delivery per expired plain request; head sessions
            // may add their election deliveries on top.
            forall|k: int|
                0 <= k < r@.len() ==> ((#[trigger] r@[k]) matches Delivery::Range(res) ==> res
                    == Err::<Vec<Header>, P2pError>(
                    P2pError::OutboundFailure(OutboundFailureKind::Timeout),
                )),
            count_range_deliveries(r@) == count_expired_plain(old(self).reqs_view(), now),
    {
        let ghost orig = self.reqs_view();
        let mut kept: Vec<(u64, PendingRequest)> = Vec::new();
        let mut deliveries: Vec<Delivery> = Vec::new();
        let ghost o: int = 0;
        while self.reqs.len() > 0
            invariant
                orig == old(self).reqs_view(),
                old(self).wf(),
                0 <= o <= orig.len(),
                self.reqs_view() == orig.skip(o),
                self.wf(),
                self.spec_next_req_id() == old(self).spec_next_req_id(),
                self.spec_next_session_id() == old(self).spec_next_session_id(),
                forall|j: int| 0 <= j < kept@.len() ==> !spec_expired((#[trigger] kept@[j]).1, now),
                forall|j: int|
                    #![trigger kept@[j]]
                    0 <= j < kept@.len() ==> exists|k: int|
                        0 <= k < o && kept@[j] == #[trigger] orig[k],
                forall|k: int|
                    0 <= k < o && !spec_expired((#[trigger] orig[k]).1, now) ==> exists|j: int|
                        0 <= j < kept@.len() && (#[trigger] kept@[j]) == orig[k],
                forall|j1: int, j2: int|
                    0 <= j1 < j2 < kept@.len() ==> (#[trigger] kept@[j1]).0 != (
                    #[trigger] kept@[j2]).0,
                forall|k: int|
                    0 <= k < deliveries@.len() ==> ((#[trigger] deliveries@[k]) matches
                        Delivery::Range(res) ==> res == Err::<Vec<Header>, P2pError>(
                        P2pError::OutboundFailure(OutboundFailureKind::Timeout),
                    )),
                count_range_deliveries(deliveries@) == count_expired_plain(orig.take(o), now),
            decreases self.reqs_view().len(),
        {
            let ghost hpre = *self;
            let ghost pre = self.reqs_view();
            let (id, p) = self.reqs.remove(0);
            proof {
                assert(self.reqs_view() =~= pre.remove(0));
                assert(self.reqs_view() =~= orig.skip(o + 1));
                assert((id, p) == orig[o]);
                assert forall|a: int, b: int|
                    0 <= a < b < self.reqs_view().len() implies (#[trigger] self.reqs_view()[a]).0
                    != (#[trigger] self.reqs_view()[b]).0 by {
                    assert(self.reqs_view()[a] == pre[a + 1] && self.reqs_view()[b] == pre[b + 1]);
                }
                assert forall|j: int|
                    0 <= j < self.reqs_view().len() implies ((#[trigger] self.reqs_view()[j]).0
                    < self.spec_next_req_id() && self.reqs_view()[j].1.request.spec_valid() && (
                self.reqs_view()[j].1.session is Some
                    ==> self.reqs_view()[j].1.request.spec_is_head())) by {
                    assert(self.reqs_view()[j] == pre[j + 1]);
                }
                assert forall|x: int, y: int|
                    0 <= x < y < self.sessions_view().len() implies (
                #[trigger] self.sessions_view()[x]).id != (#[trigger] self.sessions_view()[y]).id by {
                    assert(self.sessions_view()[x] == hpre.sessions_view()[x]);
                    assert(self.sessions_view()[y] == hpre.sessions_view()[y]);
                }
                assert forall|x: int|
                    0 <= x < self.sessions_view().len() implies (
                #[trigger] self.sessions_view()[x]).id < self.spec_next_session_id() by {
                    assert(self.sessions_view()[x] == hpre.sessions_view()[x]);
                }
                assert(self.wf());
                assert(orig.take(o + 1).drop_last() =~= orig.take(o));
                assert(orig.take(o + 1).last() == orig[o]);
            }
            let expired = p.started_at >= u64::MAX - TIMEOUT_MS || p.started_at + TIMEOUT_MS
                <= now;
            if expired {
                match p.session {
                    None => {
                        let ghost dpre = deliveries@;
                        deliveries.push(
                            Delivery::Range(
                                Err(P2pError::OutboundFailure(OutboundFailureKind::Timeout)),
                            ),
                        );
                        proof {
                            assert(deliveries@.drop_last() =~= dpre);
                        }
                    },
                    Some(session_id) => {
                        match self.resolve_session(session_id, None) {
                            Some(d) => {
                                let ghost dpre = deliveries@;
                                deliveries.push(d);
                                proof {
                                    assert(deliveries@.drop_last() =~= dpre);
                                }
                            },
                            None => {},
                        }
                    },
                }
            } else {
                let ghost kpre = kept@;
                kept.push((id, p));
                proof {
                    assert forall|j: int|
                        0 <= j < kpre.len() implies (#[trigger] kpre[j]).0 != id by {
                        let k = choose|k: int| 0 <= k < o && kpre[j] == #[trigger] orig[k];
                        assert(orig[k].0 != orig[o].0);
                    }
                    assert(kept@[kept@.len() - 1] == orig[o]);
                    assert forall|k: int|
                        0 <= k < o + 1 && !spec_expired(
                            (#[trigger] orig[k]).1,
                            now,
                        ) implies exists|j: int|
                        0 <= j < kept@.len() && (#[trigger] kept@[j]) == orig[k] by {
                        if k < o {
                            let j = choose|j: int|
                                0 <= j < kpre.len() && (#[trigger] kpre[j]) == orig[k];
                            assert(kept@[j] == kpre[j]);
                        } else {
                            assert(kept@[kept@.len() - 1] == orig[k]);
                        }
                    }
                }
            }
            proof {
                o = o + 1;
            }
        }
        proof {
            assert(orig.skip(orig.len() as int) =~= Seq::<(u64, PendingRequest)>::empty());
            assert(orig.take(orig.len() as int) =~= orig);
        }
        let ghost hmid = *self;
        self.reqs = kept;
        proof {
            assert forall|x: int, y: int|
                0 <= x < y < self.sessions_view().len() implies (
            #[trigger] self.sessions_view()[x]).id != (#[trigger] self.sessions_view()[y]).id by {
                assert(self.sessions_view()[x] == hmid.sessions_view()[x]);
                assert(self.sessions_view()[y] == hmid.sessions_view()[y]);
            }
            assert forall|x: int|
                0 <= x < self.sessions_view().len() implies (#[trigger] self.sessions_view()[x]).id
                < self.spec_next_session_id() by {
                assert(self.sessions_view()[x] == hmid.sessions_view()[x]);
            }
            // Every kept entry is one of the original entries, so the
            // request-table clauses carry over.
            assert forall|j: int|
                0 <= j < self.reqs_view().len() implies ((#[trigger] self.reqs_view()[j]).0
                < self.spec_next_req_id() && self.reqs_view()[j].1.request.spec_valid() && (
            self.reqs_view()[j].1.session is Some ==> self.reqs_view()[j].1.request.spec_is_head())
                && !spec_expired(self.reqs_view()[j].1, now)) by {
                let k = choose|k: int|
                    0 <= k < orig.len() && #[trigger] self.reqs_view()[j] == orig[k];
            }
            assert(self.wf());
            assert forall|x: u64|
                final(self).spec_pending(x) <==> (old(self).spec_pending(x) && !spec_expired(
                    old(self).spec_pending_req(x),
                    now,
                )) by {
                if self.spec_pending(x) {
                    let j = choose|j: int|
                        0 <= j < self.reqs_view().len() && (#[trigger] self.reqs_view()[j]).0 == x;
                    let k = choose|k: int|
                        0 <= k < orig.len() && self.reqs_view()[j] == #[trigger] orig[k];
                    assert(orig[k].0 == x);
                    assert(old(self).spec_pending(x));
                    let k2 = choose|k2: int|
                        0 <= k2 < orig.len() && (#[trigger] orig[k2]).0 == x;
                    assert(!(k < k2) && !(k2 < k));
                    assert(old(self).spec_pending_req(x) == orig[k].1);
                }
                if old(self).spec_pending(x) && !spec_expired(old(self).spec_pending_req(x), now) {
                    let k = choose|k: int|
                        0 <= k < orig.len() && (#[trigger] orig[k]).0 == x;
                    assert(old(self).spec_pending_req(x) == orig[k].1) by {
                        let k2 = choose|k2: int|
                            0 <= k2 < orig.len() && (#[trigger] orig[k2]).0 == x;
                        assert(!(k < k2) && !(k2 < k));
                    }
                    assert(!spec_expired(orig[k].1, now));
                    let j = choose|j: int|
                        0 <= j < self.reqs_view().len() && (#[trigger] self.reqs_view()[j])
                            == orig[k];
                    assert(self.reqs_view()[j].0 == x);
                }
            }
            assert forall|x: u64|
                final(self).spec_pending(x) implies final(self).spec_pending_req(x) == old(
                self,
            ).spec_pending_req(x) by {
                let j = choose|j: int|
                    0 <= j < self.reqs_view().len() && (#[trigger] self.reqs_view()[j]).0 == x;
                let j2 = choose|j2: int|
                    0 <= j2 < self.reqs_view().len() && (#[trigger] self.reqs_view()[j2]).0 == x;
                assert(!(j < j2) && !(j2 < j));
                let k = choose|k: int|
                    0 <= k < orig.len() && self.reqs_view()[j] == #[trigger] orig[k];
                let k2 = choose|k2: int|
                    0 <= k2 < orig.len() && (#[trigger] orig[k2]).0 == x;
                assert(!(k < k2) && !(k2 < k));
            }
        }
        deliveries
    }
}


/// Two handler states with the same session table agree on every session.
proof fn lemma_sessions_transfer(a: ExchangeClientHandler, b: ExchangeClientHandler)
    requires
        a.sessions_view() == b.sessions_view(),
        forall|i: int, j: int|
            0 <= i < j < a.sessions_view().len() ==> (#[trigger] a.sessions_view()[i]).id != (
            #[trigger] a.sessions_view()[j]).id,
    ensures
        forall|x: u64|
            #![trigger a.spec_has_session(x)]
            #![trigger b.spec_has_session(x)]
            (a.spec_has_session(x) <==> b.spec_has_session(x)) && (a.spec_has_session(x)
                ==> a.spec_session(x) == b.spec_session(x)),
{
    assert forall|x: u64|
        #![trigger a.spec_has_session(x)]
        #![trigger b.spec_has_session(x)]
        (a.spec_has_session(x) <==> b.spec_has_session(x)) && (a.spec_has_session(x)
            ==> a.spec_session(x) == b.spec_session(x)) by {
        if a.spec_has_session(x) {
            let j = choose|j: int|
                0 <= j < a.sessions_view().len() && (#[trigger] a.sessions_view()[j]).id == x;
            assert(b.sessions_view()[j].id == x);
            assert(b.spec_has_session(x));
            let ja = choose|i: int|
                0 <= i < a.sessions_view().len() && (#[trigger] a.sessions_view()[i]).id == x;
            let jb = choose|i: int|
                0 <= i < b.sessions_view().len() && (#[trigger] b.sessions_view()[i]).id == x;
            assert(a.sessions_view()[jb].id == x);
            assert(!(ja < jb) && !(jb < ja));
        }
        if b.spec_has_session(x) {
            let j = choose|j: int|
                0 <= j < b.sessions_view().len() && (#[trigger] b.sessions_view()[j]).id == x;
            assert(a.sessions_view()[j].id == x);
        }
    }
}

/// At most one in-flight request exists per protocol-assigned request id:
/// two table entries carrying the same id are the same entry.
pub proof fn lemma_pending_unique(h: ExchangeClientHandler, i: int, j: int)
    requires
        h.wf(),
        0 <= i < h.reqs_view().len(),
        0 <= j < h.reqs_view().len(),
        h.reqs_view()[i].0 == h.reqs_view()[j].0,
    ensures
        i == j,
{
    if i < j {
        assert(h.reqs_view()[i].0 != h.reqs_view()[j].0);
    } else if j < i {
        assert(h.reqs_view()[j].0 != h.reqs_view()[i].0);
    }
}

} // verus!
