//! The plain values that a syncing chain is made of.
use vstd::prelude::*;

verus! {

/// The number under which an outgoing block request is known to the network.
pub type RequestId = usize;

/// `a + b`, capped at the largest slot.
pub open spec fn capped_add(a: nat, b: nat) -> nat {
    if a + b <= u64::MAX {
        a + b
    } else {
        u64::MAX as nat
    }
}

/// A slot number. Slot arithmetic saturates, it never wraps.
#[derive(Clone, Copy, Debug, PartialEq, Eq, PartialOrd, Ord, Hash, Structural)]
pub struct Slot(pub u64);

impl View for Slot {
    type V = nat;

    open spec fn view(&self) -> nat {
        self.0 as nat
    }
}

impl Slot {
    pub fn new(slot: u64) -> (r: Slot)
        ensures
            r@ == slot,
    {
        Slot(slot)
    }

    pub fn as_u64(self) -> (r: u64)
        ensures
            r == self@,
    {
        self.0
    }

    /// The slot `count` slots later, or the last slot there is.
    pub fn saturating_add(self, count: u64) -> (r: Slot)
        ensures
            r@ == capped_add(self@, count as nat),
    {
        Slot(self.0.saturating_add(count))
    }
}

/// The root of a block.
#[derive(Clone, Copy, Debug, PartialEq, Eq)]
pub struct Hash256(pub [u8; 32]);

/// The identity of a peer, as the bytes of its multihash.
#[derive(Debug)]
pub struct PeerId {
    bytes: Vec<u8>,
}

impl View for PeerId {
    type V = Seq<u8>;

    closed spec fn view(&self) -> Seq<u8> {
        self.bytes@
    }
}

impl PeerId {
    pub fn from_bytes(bytes: Vec<u8>) -> (r: PeerId)
        ensures
            r@ == bytes@,
    {
        PeerId { bytes }
    }

    pub fn as_bytes(&self) -> (r: &Vec<u8>)
        ensures
            r@ == self@,
    {
        &self.bytes
    }
}

impl Clone for PeerId {
    fn clone(&self) -> (r: Self)
        ensures
            r@ == self@,
    {
        let bytes = self.bytes.clone();
        assert(bytes@ =~= self.bytes@);
        PeerId { bytes }
    }
}

impl PartialEq for PeerId {
    fn eq(&self, other: &Self) -> (r: bool) {
        let r = self.bytes == other.bytes;
        proof {
            if r {
                assert(self.bytes@ =~= other.bytes@);
            }
        }
        r
    }
}

impl vstd::std_specs::cmp::PartialEqSpecImpl for PeerId {
    open spec fn obeys_eq_spec() -> bool {
        true
    }

    open spec fn eq_spec(&self, other: &Self) -> bool {
        self@ == other@
    }
}

impl Eq for PeerId {

}

/// A downloaded block: the slot it belongs to, and the rest of it, which syncing only carries.
#[derive(Debug)]
pub struct BeaconBlock<B> {
    pub slot: Slot,
    pub body: B,
}

impl<B> BeaconBlock<B> {
    /// Whether `copy` is what cloning this block gives.
    pub open spec fn is_copied_by(self, copy: BeaconBlock<B>) -> bool where B: Clone {
        copy.slot == self.slot && cloned::<B>(self.body, copy.body)
    }
}

impl<B: Clone> Clone for BeaconBlock<B> {
    fn clone(&self) -> (r: Self)
        ensures
            self.is_copied_by(r),
    {
        BeaconBlock { slot: self.slot, body: self.body.clone() }
    }
}

/// A request for consecutive blocks of the chain that ends in `head_block_root`.
#[derive(Clone, Copy, Debug, PartialEq, Eq)]
pub struct BlocksByRangeRequest {
    pub head_block_root: Hash256,
    pub start_slot: u64,
    pub count: u64,
    pub step: u64,
}

} // verus!
