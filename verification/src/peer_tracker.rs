//! Membership oracle for the peers the node knows: connected or not,
//! trusted or not, with best-peer selection for the exchange client.

use vstd::prelude::*;

verus! {

/// What the tracker knows about one peer.
#[derive(Debug, Clone, Copy, PartialEq, Eq, Structural)]
pub struct PeerInfo {
    pub id: u64,
    pub trusted: bool,
    pub connected: bool,
}

/// A watchable summary of the tracker.
#[derive(Debug, Clone, Copy, PartialEq, Eq, Structural)]
pub struct PeerTrackerInfo {
    pub num_connected_peers: u64,
    pub num_connected_trusted_peers: u64,
}

/// Number of connected peers in a list.
pub open spec fn count_connected(s: Seq<PeerInfo>) -> int
    decreases s.len(),
{
    if s.len() == 0 {
        0
    } else {
        count_connected(s.drop_last()) + if s.last().connected {
            1int
        } else {
            0int
        }
    }
}

/// Number of connected trusted peers in a list.
pub open spec fn count_trusted_connected(s: Seq<PeerInfo>) -> int
    decreases s.len(),
{
    if s.len() == 0 {
        0
    } else {
        count_trusted_connected(s.drop_last()) + if s.last().connected && s.last().trusted {
            1int
        } else {
            0int
        }
    }
}

/// The set of connected and trusted peers the node knows.
#[derive(Debug)]
pub struct PeerTracker {
    peers: Vec<PeerInfo>,
}

impl View for PeerTracker {
    type V = Seq<PeerInfo>;

    closed spec fn view(&self) -> Seq<PeerInfo> {
        self.peers@
    }
}

impl PeerTracker {
    /// Peer identifiers are unique.
    pub open spec fn wf(&self) -> bool {
        forall|i: int, j: int|
            0 <= i < j < self@.len() ==> (#[trigger] self@[i]).id != (#[trigger] self@[j]).id
    }

    pub open spec fn spec_has_peer(&self, id: u64) -> bool {
        exists|i: int| 0 <= i < self@.len() && (#[trigger] self@[i]).id == id
    }

    /// The entry of a known peer.
    pub open spec fn spec_peer(&self, id: u64) -> PeerInfo
        recommends
            self.spec_has_peer(id),
    {
        self@[choose|i: int| 0 <= i < self@.len() && (#[trigger] self@[i]).id == id]
    }

    pub open spec fn spec_connected(&self, id: u64) -> bool {
        self.spec_has_peer(id) && self.spec_peer(id).connected
    }

    pub open spec fn spec_trusted_connected(&self, id: u64) -> bool {
        self.spec_has_peer(id) && self.spec_peer(id).connected && self.spec_peer(id).trusted
    }

    /// A tracker that knows no peers.
    pub fn new() -> (r: PeerTracker)
        ensures
            r@ == Seq::<PeerInfo>::empty(),
            r.wf(),
    {
        PeerTracker { peers: Vec::new() }
    }

    proof fn lemma_peer_at(&self, i: int)
        requires
            self.wf(),
            0 <= i < self@.len(),
        ensures
            self.spec_has_peer(self@[i].id),
            self.spec_peer(self@[i].id) == self@[i],
    {
        let id = self@[i].id;
        assert(self.spec_has_peer(id));
        let j = choose|j: int| 0 <= j < self@.len() && (#[trigger] self@[j]).id == id;
        assert(!(j < i) && !(i < j));
    }

    /// Mark a peer as trusted or untrusted, adding it if unknown.
    pub fn set_trusted(&mut self, id: u64, trusted: bool)
        requires
            old(self).wf(),
        ensures
            final(self).wf(),
            final(self).spec_has_peer(id),
            final(self).spec_peer(id).trusted == trusted,
            final(self).spec_peer(id).connected == (old(self).spec_has_peer(id) && old(
                self,
            ).spec_peer(id).connected),
            forall|x: u64|
                x != id ==> (final(self).spec_has_peer(x) == old(self).spec_has_peer(x) && (old(
                    self,
                ).spec_has_peer(x) ==> final(self).spec_peer(x) == old(self).spec_peer(x))),
    {
        let ghost s0 = *self;
        let mut i: usize = 0;
        while i < self.peers.len()
            invariant
                *self == s0,
                s0 == *old(self),
                self.wf(),
                i <= self@.len(),
                forall|j: int| 0 <= j < i ==> (#[trigger] self@[j]).id != id,
            decreases self@.len() - i,
        {
            if self.peers[i].id == id {
                let connected = self.peers[i].connected;
                self.peers.set(i, PeerInfo { id, trusted, connected });
                proof {
                    lemma_update_peer(s0, *self, i as int);
                }
                return ;
            }
            i = i + 1;
        }
        self.peers.push(PeerInfo { id, trusted, connected: false });
        proof {
            lemma_push_peer(s0, *self, id);
        }
    }

    /// Mark a peer as connected or disconnected, adding it if unknown.
    pub fn set_connected(&mut self, id: u64, connected: bool)
        requires
            old(self).wf(),
        ensures
            final(self).wf(),
            final(self).spec_has_peer(id),
            final(self).spec_peer(id).connected == connected,
            final(self).spec_peer(id).trusted == (old(self).spec_has_peer(id) && old(
                self,
            ).spec_peer(id).trusted),
            forall|x: u64|
                x != id ==> (final(self).spec_has_peer(x) == old(self).spec_has_peer(x) && (old(
                    self,
                ).spec_has_peer(x) ==> final(self).spec_peer(x) == old(self).spec_peer(x))),
    {
        let ghost s0 = *self;
        let mut i: usize = 0;
        while i < self.peers.len()
            invariant
                *self == s0,
                s0 == *old(self),
                self.wf(),
                i <= self@.len(),
                forall|j: int| 0 <= j < i ==> (#[trigger] self@[j]).id != id,
            decreases self@.len() - i,
        {
            if self.peers[i].id == id {
                let trusted = self.peers[i].trusted;
                self.peers.set(i, PeerInfo { id, trusted, connected });
                proof {
                    lemma_update_peer(s0, *self, i as int);
                }
                return ;
            }
            i = i + 1;
        }
        self.peers.push(PeerInfo { id, trusted: false, connected });
        proof {
            lemma_push_peer(s0, *self, id);
        }
    }

    /// The watchable summary: connected and connected-trusted counts.
    pub fn info(&self) -> (r: PeerTrackerInfo)
        ensures
            r.num_connected_peers == count_connected(self@),
            r.num_connected_trusted_peers == count_trusted_connected(self@),
    {
        let mut connected: u64 = 0;
        let mut trusted: u64 = 0;
        let mut i: usize = 0;
        proof {
            lemma_counts_bounded(self@);
        }
        while i < self.peers.len()
            invariant
                i <= self@.len(),
                connected == count_connected(self@.take(i as int)),
                trusted == count_trusted_connected(self@.take(i as int)),
                connected <= i,
                trusted <= i,
                i <= usize::MAX,
            decreases self@.len() - i,
        {
            proof {
                assert(self@.take(i + 1).drop_last() =~= self@.take(i as int));
                assert(self@.take(i + 1).last() == self@[i as int]);
                lemma_counts_bounded(self@.take(i + 1));
            }
            if self.peers[i].connected {
                connected = connected + 1;
                if self.peers[i].trusted {
                    trusted = trusted + 1;
                }
            }
            i = i + 1;
        }
        proof {
            assert(self@.take(self@.len() as int) =~= self@);
        }
        PeerTrackerInfo { num_connected_peers: connected, num_connected_trusted_peers: trusted }
    }

    /// Some connected peer, preferring a trusted one; `None` when no peer
    /// is connected.
    pub fn best_peer(&self) -> (r: Option<u64>)
        requires
            self.wf(),
        ensures
            match r {
                Some(id) => self.spec_connected(id),
                None => count_connected(self@) == 0,
            },
    {
        proof {
            lemma_counts_zero(self@);
        }
        let mut i: usize = 0;
        while i < self.peers.len()
            invariant
                self.wf(),
                i <= self@.len(),
            decreases self@.len() - i,
        {
            if self.peers[i].connected && self.peers[i].trusted {
                proof {
                    self.lemma_peer_at(i as int);
                }
                return Some(self.peers[i].id);
            }
            i = i + 1;
        }
        let mut i: usize = 0;
        while i < self.peers.len()
            invariant
                self.wf(),
                i <= self@.len(),
                forall|j: int| 0 <= j < i ==> !(#[trigger] self@[j]).connected,
            decreases self@.len() - i,
        {
            if self.peers[i].connected {
                proof {
                    self.lemma_peer_at(i as int);
                }
                return Some(self.peers[i].id);
            }
            i = i + 1;
        }
        None
    }

    /// Up to `n` connected trusted peers, distinct; fewer only when fewer
    /// are connected and trusted.
    pub fn trusted_n_peers(&self, n: usize) -> (r: Vec<u64>)
        requires
            self.wf(),
        ensures
            r@.len() <= n,
            r@.len() == n || r@.len() == count_trusted_connected(self@),
            forall|k: int| 0 <= k < r@.len() ==> self.spec_trusted_connected(#[trigger] r@[k]),
            forall|k1: int, k2: int| 0 <= k1 < k2 < r@.len() ==> r@[k1] != r@[k2],
    {
        let mut out: Vec<u64> = Vec::new();
        let mut i: usize = 0;
        proof {
            lemma_counts_bounded(self@);
        }
        while i < self.peers.len()
            invariant
                self.wf(),
                i <= self@.len(),
                out@.len() <= n,
                out@.len() == count_trusted_connected(self@.take(i as int)) || out@.len() == n,
                out@.len() <= count_trusted_connected(self@.take(i as int)),
                forall|k: int| 0 <= k < out@.len() ==> self.spec_trusted_connected(#[trigger] out@[k]),
                forall|k: int|
                    0 <= k < out@.len() ==> exists|j: int|
                        0 <= j < i && (#[trigger] out@[k]) == self@[j].id,
                forall|k1: int, k2: int| 0 <= k1 < k2 < out@.len() ==> out@[k1] != out@[k2],
            decreases self@.len() - i,
        {
            proof {
                assert(self@.take(i + 1).drop_last() =~= self@.take(i as int));
                assert(self@.take(i + 1).last() == self@[i as int]);
                lemma_counts_bounded(self@.take(i + 1));
            }
            if self.peers[i].connected && self.peers[i].trusted && out.len() < n {
                proof {
                    self.lemma_peer_at(i as int);
                    assert forall|k: int|
                        0 <= k < out@.len() implies out@[k] != self@[i as int].id by {
                        let j = choose|j: int| 0 <= j < i && (#[trigger] out@[k]) == self@[j].id;
                    }
                }
                out.push(self.peers[i].id);
            }
            i = i + 1;
        }
        proof {
            assert(self@.take(self@.len() as int) =~= self@);
        }
        out
    }
}

/// Counts never exceed the number of peers.
pub proof fn lemma_counts_bounded(s: Seq<PeerInfo>)
    ensures
        0 <= count_connected(s) <= s.len(),
        0 <= count_trusted_connected(s) <= s.len(),
    decreases s.len(),
{
    if s.len() > 0 {
        lemma_counts_bounded(s.drop_last());
    }
}

/// The connected count is zero exactly when no peer is connected, and the
/// trusted-connected count is zero exactly when no connected peer is
/// trusted.
pub proof fn lemma_counts_zero(s: Seq<PeerInfo>)
    ensures
        (count_connected(s) == 0 <==> forall|i: int|
            0 <= i < s.len() ==> !(#[trigger] s[i]).connected),
        (count_trusted_connected(s) == 0 <==> forall|i: int|
            0 <= i < s.len() ==> !((#[trigger] s[i]).connected && s[i].trusted)),
    decreases s.len(),
{
    if s.len() > 0 {
        lemma_counts_zero(s.drop_last());
        lemma_counts_bounded(s.drop_last());
        assert forall|i: int| 0 <= i < s.len() - 1 implies s.drop_last()[i] == s[i] by {}
    }
}

/// Updating one peer's flags in place keeps the tracker well formed and
/// every other peer unchanged.
proof fn lemma_update_peer(s0: PeerTracker, s1: PeerTracker, i: int)
    requires
        s0.wf(),
        0 <= i < s0@.len(),
        s1@.len() == s0@.len(),
        s1@[i].id == s0@[i].id,
        forall|j: int| 0 <= j < s0@.len() && j != i ==> s1@[j] == s0@[j],
    ensures
        s1.wf(),
        s1.spec_has_peer(s0@[i].id),
        s1.spec_peer(s0@[i].id) == s1@[i],
        forall|x: u64|
            x != s0@[i].id ==> (s1.spec_has_peer(x) == s0.spec_has_peer(x) && (s0.spec_has_peer(x)
                ==> s1.spec_peer(x) == s0.spec_peer(x))),
{
    let id = s0@[i].id;
    assert forall|a: int, b: int|
        0 <= a < b < s1@.len() implies (#[trigger] s1@[a]).id != (#[trigger] s1@[b]).id by {
        assert(s1@[a].id == s0@[a].id && s1@[b].id == s0@[b].id);
    }
    s1.lemma_peer_at(i);
    assert forall|x: u64|
        x != id implies (s1.spec_has_peer(x) == s0.spec_has_peer(x) && (s0.spec_has_peer(x)
            ==> s1.spec_peer(x) == s0.spec_peer(x))) by {
        if s0.spec_has_peer(x) {
            let j = choose|j: int| 0 <= j < s0@.len() && (#[trigger] s0@[j]).id == x;
            assert(j != i);
            assert(s1@[j] == s0@[j]);
            s0.lemma_peer_at(j);
            s1.lemma_peer_at(j);
        }
        if s1.spec_has_peer(x) {
            let j = choose|j: int| 0 <= j < s1@.len() && (#[trigger] s1@[j]).id == x;
            assert(j != i);
            assert(s1@[j] == s0@[j]);
            assert(s0.spec_has_peer(x));
        }
    }
}

/// Appending a fresh peer keeps the tracker well formed and every other
/// peer unchanged.
proof fn lemma_push_peer(s0: PeerTracker, s1: PeerTracker, id: u64)
    requires
        s0.wf(),
        forall|j: int| 0 <= j < s0@.len() ==> (#[trigger] s0@[j]).id != id,
        s1@.len() == s0@.len() + 1,
        s1@[s0@.len() as int].id == id,
        forall|j: int| 0 <= j < s0@.len() ==> s1@[j] == s0@[j],
    ensures
        s1.wf(),
        s1.spec_has_peer(id),
        s1.spec_peer(id) == s1@[s0@.len() as int],
        forall|x: u64|
            x != id ==> (s1.spec_has_peer(x) == s0.spec_has_peer(x) && (s0.spec_has_peer(x)
                ==> s1.spec_peer(x) == s0.spec_peer(x))),
{
    let m = s0@.len() as int;
    assert forall|a: int, b: int|
        0 <= a < b < s1@.len() implies (#[trigger] s1@[a]).id != (#[trigger] s1@[b]).id by {
        if b < m {
            assert(s1@[a] == s0@[a] && s1@[b] == s0@[b]);
        } else {
            assert(s1@[a] == s0@[a]);
        }
    }
    s1.lemma_peer_at(m);
    assert forall|x: u64|
        x != id implies (s1.spec_has_peer(x) == s0.spec_has_peer(x) && (s0.spec_has_peer(x)
            ==> s1.spec_peer(x) == s0.spec_peer(x))) by {
        if s0.spec_has_peer(x) {
            let j = choose|j: int| 0 <= j < s0@.len() && (#[trigger] s0@[j]).id == x;
            assert(s1@[j] == s0@[j]);
            s0.lemma_peer_at(j);
            s1.lemma_peer_at(j);
        }
        if s1.spec_has_peer(x) {
            let j = choose|j: int| 0 <= j < s1@.len() && (#[trigger] s1@[j]).id == x;
            assert(j != m);
            assert(s1@[j] == s0@[j]);
            assert(s0.spec_has_peer(x));
        }
    }
}

} // verus!
