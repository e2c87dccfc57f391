//! The peer registration decision on the receiver side.
//!
//! The radio capability owns the real peer table; this module holds the
//! rule for when a sender must be added to it, and a model of the table
//! that the receive loop keeps in step with the capability.  Addresses
//! are the 48-bit link addresses packed into a `u64`.

use vstd::prelude::*;

verus! {

/// The link-layer broadcast address: all six octets `0xFF`.
pub const BROADCAST_ADDRESS: u64 = 0xFFFF_FFFF_FFFF;

/// A sender must be registered exactly when the frame was sent to the
/// broadcast address and the capability does not already know it.
pub open spec fn spec_registration_needed(dst: u64, already_known: bool) -> bool {
    dst == BROADCAST_ADDRESS && !already_known
}

/// The registration rule on one frame, given the destination address
/// and the capability's answer to "is the sender already a peer?".
pub fn registration_needed(dst: u64, already_known: bool) -> (r: bool)
    ensures
        r == spec_registration_needed(dst, already_known),
{
    dst == BROADCAST_ADDRESS && !already_known
}

/// What one frame does to the set of known peers.
pub open spec fn spec_ensure_registered(peers: Set<u64>, src: u64, dst: u64) -> (Set<u64>, bool) {
    if spec_registration_needed(dst, peers.contains(src)) {
        (peers.insert(src), true)
    } else {
        (peers, false)
    }
}

/// The adapter's view of the capability's peer table.
pub struct PeerRegistry {
    known: Vec<u64>,
}

impl PeerRegistry {
    /// The set of addresses registered so far.
    pub closed spec fn peers(&self) -> Set<u64> {
        self.known@.to_set()
    }

    /// An empty table: no sender is known yet.
    pub fn new() -> (r: PeerRegistry)
        ensures
            r.peers() == Set::<u64>::empty(),
    {
        let r = PeerRegistry { known: Vec::new() };
        proof {
            assert(r.peers() =~= Set::<u64>::empty());
        }
        r
    }

    /// Whether `addr` is already a registered peer.
    pub fn peer_exists(&self, addr: u64) -> (r: bool)
        ensures
            r == self.peers().contains(addr),
    {
        let mut i: usize = 0;
        while i < self.known.len()
            invariant
                i <= self.known@.len(),
                forall|j: int| 0 <= j < i ==> self.known@[j] != addr,
            decreases self.known@.len() - i,
        {
            if self.known[i] == addr {
                proof {
                    assert(self.known@.contains(addr));
                }
                return true;
            }
            i += 1;
        }
        proof {
            assert(!self.known@.contains(addr));
        }
        false
    }

    /// Handle one frame: register the sender if the frame was broadcast
    /// and the sender is unknown.  Returns whether a registration
    /// request was issued; calling this on every frame is safe, and a
    /// second frame from a known sender issues nothing.
    pub fn ensure_registered(&mut self, src: u64, dst: u64) -> (added: bool)
        ensures
            (final(self).peers(), added) == spec_ensure_registered(old(self).peers(), src, dst),
            added == spec_registration_needed(dst, old(self).peers().contains(src)),
    {
        let known = self.peer_exists(src);
        if registration_needed(dst, known) {
            self.known.push(src);
            proof {
                let s0 = old(self).known@;
                let s1 = self.known@;
                assert forall|x: u64| s1.contains(x) implies s0.contains(x) || x == src by {
                    let i = choose|i: int| 0 <= i < s1.len() && s1[i] == x;
                    if i < s0.len() {
                        assert(s0[i] == x);
                    }
                };
                assert forall|x: u64| s0.contains(x) || x == src implies s1.contains(x) by {
                    if s0.contains(x) {
                        let i = choose|i: int| 0 <= i < s0.len() && s0[i] == x;
                        assert(s1[i] == x);
                    } else {
                        assert(s1[s1.len() - 1] == src);
                    }
                };
                assert(self.peers() =~= old(self).peers().insert(src));
            }
            true
        } else {
            false
        }
    }
}

/// A broadcast frame from an unknown sender causes exactly one
/// registration: the first frame registers the sender, and a second
/// frame from the same sender registers nothing more, whatever other
/// senders were seen in between.
pub proof fn lemma_register_once(peers: Set<u64>, src: u64)
    requires
        !peers.contains(src),
    ensures
        spec_ensure_registered(peers, src, BROADCAST_ADDRESS).1,
        !spec_ensure_registered(
            spec_ensure_registered(peers, src, BROADCAST_ADDRESS).0,
            src,
            BROADCAST_ADDRESS,
        ).1,
{
}

/// Registration is idempotent in general: whatever one frame did to the
/// table, a second frame from the same sender adds nothing.
pub proof fn lemma_register_idempotent(peers: Set<u64>, src: u64, dst: u64)
    ensures
        !spec_ensure_registered(
            spec_ensure_registered(peers, src, dst).0,
            src,
            dst,
        ).1,
{
}

} // verus!
