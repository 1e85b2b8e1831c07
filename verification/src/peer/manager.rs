//! The pool of peers of one torrent: whom to dial next, without dialling anyone twice.
use vstd::prelude::*;
use std::collections::VecDeque;

verus! {

broadcast use vstd::seq_lib::group_seq_properties;

/// A peer's address: its IP in IPv6 form (IPv4 addresses mapped) and its port.
#[derive(Debug, Clone, Copy, PartialEq, Eq, Structural, Hash)]
pub struct PeerAddr {
    pub ip: u128,
    pub port: u16,
}

/// Peers connected or being dialled, and peers waiting to be dialled, first come first served.
pub struct PeerManager {
    info_hash: [u8; 20],
    peer_id: [u8; 20],
    max_connections: usize,
    active_peers: Vec<PeerAddr>,
    candidate_peers: VecDeque<PeerAddr>,
}

/// No address occurs twice.
pub open spec fn distinct(s: Seq<PeerAddr>) -> bool {
    forall|i: int, j: int| 0 <= i < j < s.len() ==> s[i] != s[j]
}

/// `peers` added in order after `cands`, skipping those active or already waiting.
pub open spec fn with_candidates(active: Seq<PeerAddr>, cands: Seq<PeerAddr>, peers: Seq<PeerAddr>) -> Seq<PeerAddr>
    decreases peers.len(),
{
    if peers.len() == 0 {
        cands
    } else {
        let c = with_candidates(active, cands, peers.drop_last());
        let p = peers.last();
        if active.contains(p) || c.contains(p) {
            c
        } else {
            c.push(p)
        }
    }
}

impl PeerManager {
    /// The peers connected or being dialled.
    pub closed spec fn active(&self) -> Seq<PeerAddr> {
        self.active_peers@
    }

    /// The peers waiting to be dialled, in order.
    pub closed spec fn candidates(&self) -> Seq<PeerAddr> {
        self.candidate_peers@
    }

    /// How many peers may be connected at once.
    pub closed spec fn limit(&self) -> usize {
        self.max_connections
    }

    pub closed spec fn hash(&self) -> Seq<u8> {
        self.info_hash@
    }

    pub closed spec fn id(&self) -> Seq<u8> {
        self.peer_id@
    }

    /// No peer is both waiting and active, and none occurs twice in either.
    pub closed spec fn wf(&self) -> bool {
        &&& distinct(self.active_peers@)
        &&& distinct(self.candidate_peers@)
        &&& forall|a: PeerAddr| self.active_peers@.contains(a) ==> !self.candidate_peers@.contains(a)
    }

    pub fn new(info_hash: [u8; 20], peer_id: [u8; 20], max_connections: usize) -> (m: Self)
        ensures
            m.wf(),
            m.active() == Seq::<PeerAddr>::empty(),
            m.candidates() == Seq::<PeerAddr>::empty(),
            m.limit() == max_connections,
            m.hash() == info_hash@,
            m.id() == peer_id@,
    {
        PeerManager {
            info_hash,
            peer_id,
            max_connections,
            active_peers: Vec::new(),
            candidate_peers: VecDeque::new(),
        }
    }

    pub fn info_hash(&self) -> (r: [u8; 20])
        ensures
            r@ == self.hash(),
    {
        self.info_hash
    }

    pub fn peer_id(&self) -> (r: [u8; 20])
        ensures
            r@ == self.id(),
    {
        self.peer_id
    }

    /// Queues the peers that are neither active nor waiting already.
    pub fn add_candidates(&mut self, peers: Vec<PeerAddr>)
        requires
            old(self).wf(),
        ensures
            final(self).wf(),
            final(self).active() == old(self).active(),
            final(self).candidates() == with_candidates(old(self).active(), old(self).candidates(), peers@),
            final(self).limit() == old(self).limit(),
            final(self).hash() == old(self).hash(),
            final(self).id() == old(self).id(),
    {
        let ghost start = self.candidate_peers@;
        let mut i: usize = 0;
        assert(peers@.take(0) =~= Seq::<PeerAddr>::empty());
        while i < peers.len()
            invariant
                0 <= i <= peers@.len(),
                self.wf(),
                self.active_peers@ == old(self).active_peers@,
                self.max_connections == old(self).max_connections,
                self.info_hash == old(self).info_hash,
                self.peer_id == old(self).peer_id,
                start == old(self).candidate_peers@,
                self.candidate_peers@ == with_candidates(self.active_peers@, start, peers@.take(i as int)),
            decreases peers@.len() - i,
        {
            let p = peers[i];
            assert(peers@.take(i + 1).drop_last() =~= peers@.take(i as int));
            assert(peers@.take(i + 1).last() == p);
            if !contains_addr(&self.active_peers, p) && !queued(&self.candidate_peers, p) {
                self.candidate_peers.push_back(p);
                assert forall|a: PeerAddr| self.active_peers@.contains(a) implies !self.candidate_peers@.contains(a) by {
                    if self.candidate_peers@.contains(a) {
                        let k = choose|k: int| 0 <= k < self.candidate_peers@.len() && self.candidate_peers@[k] == a;
                        if k < self.candidate_peers@.len() - 1 {
                            assert(old(self).candidate_peers@.len() >= 0);
                            assert(self.candidate_peers@.drop_last().contains(a));
                        }
                    }
                }
            }
            i = i + 1;
        }
        assert(peers@.take(i as int) =~= peers@);
    }

    /// Forgets a peer that went away.
    pub fn remove_peer(&mut self, addr: PeerAddr)
        requires
            old(self).wf(),
        ensures
            final(self).wf(),
            final(self).active() == without(old(self).active(), addr),
            final(self).candidates() == old(self).candidates(),
            final(self).limit() == old(self).limit(),
            final(self).hash() == old(self).hash(),
            final(self).id() == old(self).id(),
    {
        let ghost old_active = self.active_peers@;
        let mut kept: Vec<PeerAddr> = Vec::new();
        let mut i: usize = 0;
        assert(old_active.take(0) =~= Seq::<PeerAddr>::empty());
        while i < self.active_peers.len()
            invariant
                0 <= i <= old_active.len(),
                self.active_peers@ == old_active,
                kept@ == without(old_active.take(i as int), addr),
            decreases old_active.len() - i,
        {
            let a = self.active_peers[i];
            assert(old_active.take(i + 1).drop_last() =~= old_active.take(i as int));
            assert(old_active.take(i + 1).last() == a);
            if a != addr {
                kept.push(a);
            }
            i = i + 1;
        }
        assert(old_active.take(i as int) =~= old_active);
        proof {
            lemma_without(old_active, addr);
        }
        self.active_peers = kept;
    }

    /// Moves waiting peers to the active ones, first come first served, while the pool has room;
    /// gives them in that order, to be dialled.
    pub fn tick(&mut self) -> (r: Vec<PeerAddr>)
        requires
            old(self).wf(),
        ensures
            final(self).wf(),
            r@.len() == (if old(self).limit() > old(self).active().len() {
                min_nat((old(self).limit() - old(self).active().len()) as nat, old(self).candidates().len())
            } else {
                0
            }),
            r@ == old(self).candidates().take(r@.len() as int),
            final(self).candidates() == old(self).candidates().skip(r@.len() as int),
            final(self).active() == old(self).active() + r@,
            final(self).limit() == old(self).limit(),
            final(self).hash() == old(self).hash(),
            final(self).id() == old(self).id(),
    {
        let ghost a0 = self.active_peers@;
        let ghost c0 = self.candidate_peers@;
        let mut dial: Vec<PeerAddr> = Vec::new();
        let ghost mut k: int = 0;
        while self.active_peers.len() < self.max_connections
            invariant
                0 <= k <= c0.len(),
                self.candidate_peers@ == c0.skip(k),
                dial@ == c0.take(k),
                self.active_peers@ == a0 + dial@,
                k == 0 || a0.len() + k <= self.max_connections,
                self.max_connections == old(self).max_connections,
                self.info_hash == old(self).info_hash,
                self.peer_id == old(self).peer_id,
                a0 == old(self).active_peers@,
                c0 == old(self).candidate_peers@,
                old(self).wf(),
            ensures
                0 <= k <= c0.len(),
                self.candidate_peers@ == c0.skip(k),
                dial@ == c0.take(k),
                self.active_peers@ == a0 + dial@,
                k == (if self.max_connections > a0.len() {
                    min_nat((self.max_connections - a0.len()) as nat, c0.len())
                } else {
                    0
                }),
                self.max_connections == old(self).max_connections,
                self.info_hash == old(self).info_hash,
                self.peer_id == old(self).peer_id,
            decreases c0.len() - k,
        {
            match self.candidate_peers.pop_front() {
                Some(p) => {
                    assert(p == c0[k]);
                    dial.push(p);
                    self.active_peers.push(p);
                    assert(c0.take(k + 1) =~= c0.take(k).push(p));
                    proof {
                        k = k + 1;
                    }
                    assert(self.candidate_peers@ =~= c0.skip(k));
                },
                None => {
                    break;
                },
            }
        }
        proof {
            assert(distinct(self.active_peers@)) by {
                assert forall|x: int, y: int| 0 <= x < y < self.active_peers@.len() implies self.active_peers@[x] != self.active_peers@[y] by {
                    if y < a0.len() {
                    } else if x < a0.len() {
                        assert(c0.contains(self.active_peers@[y]));
                        assert(a0.contains(self.active_peers@[x]));
                    } else {
                        assert(self.active_peers@[x] == c0[x - a0.len()]);
                        assert(self.active_peers@[y] == c0[y - a0.len()]);
                    }
                }
            }
            assert(distinct(self.candidate_peers@));
            assert forall|a: PeerAddr| self.active_peers@.contains(a) implies !self.candidate_peers@.contains(a) by {
                if self.candidate_peers@.contains(a) {
                    let y = choose|y: int| 0 <= y < self.candidate_peers@.len() && self.candidate_peers@[y] == a;
                    assert(c0[y + k] == a);
                    let x = choose|x: int| 0 <= x < self.active_peers@.len() && self.active_peers@[x] == a;
                    if x >= a0.len() {
                        assert(c0[x - a0.len()] == a);
                    } else {
                        assert(a0.contains(a));
                        assert(c0.contains(a));
                    }
                }
            }
        }
        dial
    }
}

/// The smaller of two numbers.
pub open spec fn min_nat(a: nat, b: nat) -> nat {
    if a < b {
        a
    } else {
        b
    }
}

/// `s` without `a`.
pub open spec fn without(s: Seq<PeerAddr>, a: PeerAddr) -> Seq<PeerAddr>
    decreases s.len(),
{
    if s.len() == 0 {
        s
    } else if s.last() == a {
        without(s.drop_last(), a)
    } else {
        without(s.drop_last(), a).push(s.last())
    }
}

proof fn lemma_without(s: Seq<PeerAddr>, a: PeerAddr)
    requires
        distinct(s),
    ensures
        distinct(without(s, a)),
        forall|x: PeerAddr| without(s, a).contains(x) <==> (s.contains(x) && x != a),
    decreases s.len(),
{
    if s.len() > 0 {
        let t = s.drop_last();
        assert(distinct(t));
        lemma_without(t, a);
        assert forall|x: PeerAddr| s.contains(x) <==> (t.contains(x) || x == s.last()) by {
            if s.contains(x) {
                let i = choose|i: int| 0 <= i < s.len() && s[i] == x;
                if i < s.len() - 1 {
                    assert(t[i] == x);
                }
            }
            if t.contains(x) {
                let i = choose|i: int| 0 <= i < t.len() && t[i] == x;
                assert(s[i] == x);
            }
        }
        if s.last() != a {
            let w = without(t, a);
            assert(!t.contains(s.last())) by {
                if t.contains(s.last()) {
                    let i = choose|i: int| 0 <= i < t.len() && t[i] == s.last();
                    assert(s[i] == s[s.len() - 1]);
                }
            }
            assert forall|x: PeerAddr| w.push(s.last()).contains(x) <==> (w.contains(x) || x == s.last()) by {
                if w.push(s.last()).contains(x) {
                    let i = choose|i: int| 0 <= i < w.len() + 1 && w.push(s.last())[i] == x;
                    if i < w.len() {
                        assert(w[i] == x);
                    }
                }
                if w.contains(x) {
                    let i = choose|i: int| 0 <= i < w.len() && w[i] == x;
                    assert(w.push(s.last())[i] == x);
                }
                if x == s.last() {
                    assert(w.push(s.last())[w.len() as int] == x);
                }
            }
            assert(distinct(w.push(s.last())));
        }
    }
}

/// `a` waits in `q`.
fn queued(q: &VecDeque<PeerAddr>, a: PeerAddr) -> (r: bool)
    ensures
        r == q@.contains(a),
{
    let mut i: usize = 0;
    while i < q.len()
        invariant
            0 <= i <= q@.len(),
            forall|k: int| 0 <= k < i ==> q@[k] != a,
        decreases q@.len() - i,
    {
        if q[i] == a {
            return true;
        }
        i = i + 1;
    }
    false
}

/// `a` occurs in `v`.
fn contains_addr(v: &Vec<PeerAddr>, a: PeerAddr) -> (r: bool)
    ensures
        r == v@.contains(a),
{
    let mut i: usize = 0;
    while i < v.len()
        invariant
            0 <= i <= v@.len(),
            forall|k: int| 0 <= k < i ==> v@[k] != a,
        decreases v@.len() - i,
    {
        if v[i] == a {
            return true;
        }
        i = i + 1;
    }
    false
}

} // verus!
