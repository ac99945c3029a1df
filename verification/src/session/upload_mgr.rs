//! Upload slots: which peers are unchoked.

use crate::addr::PeerAddr;
use crate::collections::VecMap;
use vstd::prelude::*;

verus! {

/// Manages upload slots. Its view is the set of peers we have unchoked.
pub struct UploadManager {
    max_uploads: u32,
    unchoked: VecMap<PeerAddr, ()>,
}

impl View for UploadManager {
    type V = Set<PeerAddr>;

    closed spec fn view(&self) -> Set<PeerAddr> {
        self.unchoked@.dom()
    }
}

/// The unchoked peers after one more was let in, if a slot was free.
pub open spec fn after_unchoke(
    unchoked: Set<PeerAddr>,
    addr: PeerAddr,
    max_uploads: u32,
) -> Set<PeerAddr> {
    if unchoked.len() < max_uploads {
        unchoked.insert(addr)
    } else {
        unchoked
    }
}

impl UploadManager {
    /// No more peers are unchoked than there are slots.
    pub closed spec fn wf(&self) -> bool {
        &&& self.unchoked.wf()
        &&& self.unchoked@.dom().len() <= self.max_uploads
    }

    /// The number of slots, as contracts speak of it.
    pub closed spec fn spec_max_uploads(&self) -> u32 {
        self.max_uploads
    }

    /// The unchoked peers, oldest first.
    pub closed spec fn order(&self) -> Seq<PeerAddr> {
        self.unchoked.order()
    }

    /// Slots are never exceeded, and the order lists each unchoked peer once.
    pub proof fn lemma_wf(&self)
        requires
            self.wf(),
        ensures
            self@.finite(),
            self@.len() <= self.spec_max_uploads(),
            self.order().no_duplicates(),
            self.order().to_set() == self@,
            self@.len() == self.order().len(),
            forall|a: PeerAddr| #[trigger] self@.contains(a) <==> self.order().contains(a),
    {
        self.unchoked.lemma_order();
        assert forall|a: PeerAddr| #[trigger] self@.contains(a) <==> self.order().contains(a) by {
            assert(self.unchoked@.contains_key(a) <==> self.order().contains(a));
        }
    }

    /// Create a manager with nobody unchoked.
    pub fn new(max_uploads: u32) -> (m: UploadManager)
        ensures
            m.wf(),
            m@ == Set::<PeerAddr>::empty(),
            m.order() == Seq::<PeerAddr>::empty(),
            m.spec_max_uploads() == max_uploads,
    {
        let m = UploadManager { max_uploads, unchoked: VecMap::new() };
        assert(m@ =~= Set::<PeerAddr>::empty());
        m
    }

    /// Check if a peer is unchoked.
    pub fn is_unchoked(&self, addr: &PeerAddr) -> (r: bool)
        requires
            self.wf(),
        ensures
            r == self@.contains(*addr),
    {
        self.unchoked.contains_key(addr)
    }

    /// Choke a peer (stop sending data).
    pub fn choke(&mut self, addr: &PeerAddr)
        requires
            old(self).wf(),
        ensures
            final(self).wf(),
            final(self)@ == old(self)@.remove(*addr),
            final(self).spec_max_uploads() == old(self).spec_max_uploads(),
    {
        proof {
            self.lemma_wf();
        }
        self.unchoked.remove(addr);
        assert(self@ =~= old(self)@.remove(*addr));
    }

    /// Unchoke a peer (allow sending data), if a slot is free.
    pub fn unchoke(&mut self, addr: PeerAddr)
        requires
            old(self).wf(),
        ensures
            final(self).wf(),
            final(self)@ == after_unchoke(old(self)@, addr, old(self).spec_max_uploads()),
            final(self).spec_max_uploads() == old(self).spec_max_uploads(),
            final(self).order() == if old(self)@.len() < old(self).spec_max_uploads() && !old(
                self,
            )@.contains(addr) {
                old(self).order().push(addr)
            } else {
                old(self).order()
            },
    {
        proof {
            self.lemma_wf();
        }
        if (self.unchoked.len() as u64) < self.max_uploads as u64 {
            self.unchoked.insert(addr, ());
            assert(self@ =~= old(self)@.insert(addr));
        }
    }

    /// Get the number of unchoked peers.
    pub fn num_unchoked(&self) -> (n: usize)
        requires
            self.wf(),
        ensures
            n == self@.len(),
    {
        self.unchoked.len()
    }

    /// Get all unchoked peer addresses.
    pub fn unchoked_peers(&self) -> (r: Vec<PeerAddr>)
        requires
            self.wf(),
        ensures
            r@ == self.order(),
            r@.no_duplicates(),
            r@.to_set() == self@,
    {
        proof {
            self.lemma_wf();
        }
        self.unchoked.keys()
    }

    /// Get the configured maximum upload slots.
    pub fn max_uploads(&self) -> (n: u32)
        ensures
            n == self.spec_max_uploads(),
    {
        self.max_uploads
    }
}

/// Choking a peer undoes unchoking it.
pub proof fn law_choke_undoes_unchoke(
    unchoked: Set<PeerAddr>,
    addr: PeerAddr,
    max_uploads: u32,
)
    requires
        !unchoked.contains(addr),
    ensures
        after_unchoke(unchoked, addr, max_uploads).remove(addr) == unchoked,
{
    assert(after_unchoke(unchoked, addr, max_uploads).remove(addr) =~= unchoked);
}

/// A peer is let in exactly when a slot is free; the others keep theirs, nobody
/// else comes in, and the slots are never exceeded.
pub proof fn law_unchoke(unchoked: Set<PeerAddr>, addr: PeerAddr, max_uploads: u32, a: PeerAddr)
    requires
        unchoked.finite(),
        unchoked.len() <= max_uploads,
    ensures
        ({
            let after = after_unchoke(unchoked, addr, max_uploads);
            &&& unchoked.len() < max_uploads ==> after.contains(addr)
            &&& unchoked.len() == max_uploads ==> after == unchoked
            &&& unchoked.contains(a) ==> after.contains(a)
            &&& after.contains(a) ==> unchoked.contains(a) || a == addr
            &&& after.len() <= max_uploads
        }),
{
}

} // verus!
