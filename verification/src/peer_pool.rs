//! The peers that a chain can be downloaded from.
use crate::types::PeerId;
use vstd::prelude::*;

verus! {

/// The identities that `peers` holds, in order.
pub open spec fn identities(peers: Seq<PeerId>) -> Seq<Seq<u8>> {
    peers.map_values(|peer: PeerId| peer@)
}

/// Whether `peers` names each member of `pool` once, and nobody else.
pub open spec fn lists_each_once(peers: Seq<Seq<u8>>, pool: Set<Seq<u8>>) -> bool {
    peers.no_duplicates() && peers.to_set() == pool
}

/// A set of peers.
#[derive(Debug)]
pub struct PeerPool {
    peers: Vec<PeerId>,
}

impl View for PeerPool {
    type V = Set<Seq<u8>>;

    closed spec fn view(&self) -> Set<Seq<u8>> {
        identities(self.peers@).to_set()
    }
}

impl PeerPool {
    #[verifier::type_invariant]
    spec fn inv(self) -> bool {
        identities(self.peers@).no_duplicates()
    }

    pub fn new() -> (r: PeerPool)
        ensures
            r@ == Set::<Seq<u8>>::empty(),
    {
        let r = PeerPool { peers: Vec::new() };
        assert(r@ =~= Set::<Seq<u8>>::empty());
        r
    }

    pub fn len(&self) -> (r: usize)
        ensures
            r == self@.len(),
    {
        proof {
            use_type_invariant(self);
            identities(self.peers@).unique_seq_to_set();
        }
        self.peers.len()
    }

    pub fn contains(&self, peer: &PeerId) -> (r: bool)
        ensures
            r == self@.contains(peer@),
    {
        let ghost ids = identities(self.peers@);
        for i in 0..self.peers.len()
            invariant
                ids == identities(self.peers@),
                forall|j: int| 0 <= j < i ==> ids[j] != peer@,
        {
            assert(ids[i as int] == self.peers@[i as int]@);
            if self.peers[i] == *peer {
                return true;
            }
        }
        false
    }

    /// Adds a peer, unless it is in the pool already.
    pub fn insert(&mut self, peer: PeerId)
        ensures
            final(self)@ == old(self)@.insert(peer@),
    {
        proof {
            use_type_invariant(&*self);
        }
        if self.contains(&peer) {
            assert(self@ =~= old(self)@.insert(peer@));
            return;
        }
        let ghost before = identities(self.peers@);
        let ghost id = peer@;
        let mut peers: Vec<PeerId> = Vec::new();
        std::mem::swap(&mut peers, &mut self.peers);
        peers.push(peer);
        assert(identities(peers@) =~= before.push(id));
        self.peers = peers;
        assert(before.push(id).to_set() =~= before.to_set().insert(id)) by {
            broadcast use vstd::seq_lib::group_seq_properties;

        }
    }

    /// The peers, each once, in no particular order.
    pub fn refs(&self) -> (r: Vec<&PeerId>)
        ensures
            lists_each_once(r@.map_values(|peer: &PeerId| peer@), self@),
    {
        let mut r: Vec<&PeerId> = Vec::new();
        for i in 0..self.peers.len()
            invariant
                r@.len() == i,
                forall|j: int| 0 <= j < i ==> r@[j]@ == self.peers@[j]@,
        {
            r.push(&self.peers[i]);
        }
        proof {
            use_type_invariant(self);
            assert(r@.map_values(|peer: &PeerId| peer@) =~= identities(self.peers@));
        }
        r
    }

    /// A member other than `peer`, if there is one.
    pub fn other_than(&self, peer: &PeerId) -> (r: Option<&PeerId>)
        ensures
            match r {
                Some(other) => self@.contains(other@) && other@ != peer@,
                None => forall|id: Seq<u8>| #[trigger] self@.contains(id) ==> id == peer@,
            },
    {
        let ghost ids = identities(self.peers@);
        for i in 0..self.peers.len()
            invariant
                ids == identities(self.peers@),
                forall|j: int| 0 <= j < i ==> ids[j] == peer@,
        {
            assert(ids[i as int] == self.peers@[i as int]@);
            if self.peers[i] != *peer {
                return Some(&self.peers[i]);
            }
        }
        None
    }

    /// Empties the pool, handing out the peers, each once, in no particular order.
    pub fn drain(&mut self) -> (r: Vec<PeerId>)
        ensures
            final(self)@ == Set::<Seq<u8>>::empty(),
            lists_each_once(identities(r@), old(self)@),
    {
        proof {
            use_type_invariant(&*self);
        }
        let mut r: Vec<PeerId> = Vec::new();
        std::mem::swap(&mut r, &mut self.peers);
        assert(self@ =~= Set::<Seq<u8>>::empty());
        r
    }
}

} // verus!
