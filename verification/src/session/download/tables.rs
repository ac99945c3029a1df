//! The peers of a torrent and its pieces in flight.

use super::types::{ActiveDownload, BlockRequest, DownloadView, PeerInfo, PeerView};
use crate::addr::PeerAddr;
use crate::collections::VecMap;

use vstd::prelude::*;

verus! {

/// The pieces in flight, by piece index.
pub struct Downloads {
    map: VecMap<u32, ActiveDownload>,
}

impl View for Downloads {
    type V = Map<u32, DownloadView>;

    closed spec fn view(&self) -> Map<u32, DownloadView> {
        Map::new(|i: u32| self.map@.contains_key(i), |i: u32| self.map@[i]@)
    }
}

/// `dls` with the assignment of every block for which `f` holds taken away.
pub open spec fn clear_blocks(
    dls: Map<u32, DownloadView>,
    f: spec_fn(u32, int) -> bool,
) -> Map<u32, DownloadView> {
    Map::new(
        |i: u32| dls.contains_key(i),
        |i: u32| DownloadView {
            requested: Seq::new(
                dls[i].requested.len(),
                |b: int|
                    if f(i, b) {
                        None
                    } else {
                        dls[i].requested[b]
                    },
            ),
            ..dls[i]
        },
    )
}

/// Whether one of the requests is for this block.
pub open spec fn asks_for(
    slots: Seq<Option<BlockRequest>>,
    index: u32,
    block: int,
    block_size: u32,
) -> bool {
    exists|j: int|
        0 <= j < slots.len() && slot_asks(#[trigger] slots[j], index, block, block_size)
}

/// `dls` with the blocks of all these requests free again.
pub open spec fn release(
    dls: Map<u32, DownloadView>,
    slots: Seq<Option<BlockRequest>>,
) -> Map<u32, DownloadView> {
    clear_blocks(dls, |i: u32, b: int| asks_for(slots, i, b, dls[i].block_size))
}

/// `dls` with the blocks assigned to `addr` free again.
pub open spec fn forget(dls: Map<u32, DownloadView>, addr: PeerAddr) -> Map<u32, DownloadView> {
    clear_blocks(dls, |i: u32, b: int| dls[i].requested[b] == Some(addr))
}

/// `dls` with one block free again, if the piece is in flight.
pub open spec fn unrequest(
    dls: Map<u32, DownloadView>,
    index: u32,
    begin: u32,
) -> Map<u32, DownloadView> {
    if dls.contains_key(index) {
        dls.insert(index, dls[index].with_assignment(begin, None))
    } else {
        dls
    }
}

/// Freeing one block clears exactly that block.
pub proof fn lemma_unrequest_clears(dls: Map<u32, DownloadView>, index: u32, begin: u32)
    requires
        dls.contains_key(index) ==> dls[index].block_size > 0,
    ensures
        unrequest(dls, index, begin) == clear_blocks(
            dls,
            |i: u32, b: int| i == index && begin as int / dls[i].block_size as int == b,
        ),
{
    let f = |i: u32, b: int| i == index && begin as int / dls[i].block_size as int == b;
    let a = unrequest(dls, index, begin);
    let c = clear_blocks(dls, f);
    assert forall|i: u32| dls.contains_key(i) implies a[i] == c[i] by {
        assert(a[i].requested =~= c[i].requested);
        assert(a[i] =~= c[i]);
    }
    assert(a =~= c);
}

/// Clearing nothing changes nothing.
pub proof fn lemma_clear_none(dls: Map<u32, DownloadView>, f: spec_fn(u32, int) -> bool)
    requires
        forall|i: u32, b: int|
            dls.contains_key(i) && 0 <= b < dls[i].requested.len() ==> !(#[trigger] f(i, b)),
    ensures
        clear_blocks(dls, f) == dls,
{
    let a = clear_blocks(dls, f);
    assert forall|i: u32| dls.contains_key(i) implies a[i] == dls[i] by {
        assert forall|b: int| 0 <= b < dls[i].requested.len() implies a[i].requested[b]
            == dls[i].requested[b] by {}
        assert(a[i].requested =~= dls[i].requested);
        assert(a[i] =~= dls[i]);
    }
    assert(a =~= dls);
}

impl Downloads {
    /// Every piece in flight is well formed.
    pub closed spec fn wf(&self) -> bool {
        &&& self.map.wf()
        &&& forall|i: u32| #[trigger] self.map@.contains_key(i) ==> self.map@[i]@.wf()
    }

    /// The piece indices in the order in which their downloads started.
    pub closed spec fn order(&self) -> Seq<u32> {
        self.map.order()
    }

    /// What a well-formed table guarantees of its view.
    pub proof fn lemma_wf(&self)
        requires
            self.wf(),
        ensures
            forall|i: u32| #[trigger] self@.contains_key(i) ==> self@[i].wf(),
            forall|i: u32| #[trigger] self@.contains_key(i) <==> self.order().contains(i),
            self.order().no_duplicates(),
            self@.dom().finite(),
            self@.dom().len() == self.order().len(),
    {
        self.map.lemma_order();
        assert(self@.dom() =~= self.map@.dom());
    }

    /// No piece in flight.
    pub fn new() -> (d: Downloads)
        ensures
            d.wf(),
            d@ == Map::<u32, DownloadView>::empty(),
            d.order() == Seq::<u32>::empty(),
    {
        let d = Downloads { map: VecMap::new() };
        assert(d@ =~= Map::<u32, DownloadView>::empty());
        d
    }

    /// The number of pieces in flight.
    pub fn len(&self) -> (n: usize)
        requires
            self.wf(),
        ensures
            n == self.order().len(),
            n == self@.dom().len(),
    {
        proof {
            self.lemma_wf();
        }
        self.map.len()
    }

    /// The pieces in flight, oldest first.
    pub fn indices(&self) -> (r: Vec<u32>)
        requires
            self.wf(),
        ensures
            r@ == self.order(),
    {
        self.map.keys()
    }

    /// Whether the piece is in flight.
    pub fn contains(&self, index: u32) -> (r: bool)
        requires
            self.wf(),
        ensures
            r == self@.contains_key(index),
    {
        self.map.contains_key(&index)
    }

    /// The download of a piece.
    pub fn get(&self, index: u32) -> (r: Option<&ActiveDownload>)
        requires
            self.wf(),
        ensures
            match r {
                Some(d) => self@.contains_key(index) && d@ == self@[index] && d@.wf(),
                None => !self@.contains_key(index),
            },
    {
        self.map.get(&index)
    }

    /// Start the download of a piece; one that was in flight is replaced.
    pub fn insert(&mut self, index: u32, d: ActiveDownload)
        requires
            old(self).wf(),
            d@.wf(),
        ensures
            final(self).wf(),
            final(self)@ == old(self)@.insert(index, d@),
            final(self).order() == if old(self)@.contains_key(index) {
                old(self).order()
            } else {
                old(self).order().push(index)
            },
    {
        self.map.insert(index, d);
        assert(self@ =~= old(self)@.insert(index, d@));
    }

    /// Give up the download of a piece.
    pub fn remove(&mut self, index: u32) -> (r: Option<ActiveDownload>)
        requires
            old(self).wf(),
        ensures
            final(self).wf(),
            final(self)@ == old(self)@.remove(index),
            match r {
                Some(d) => old(self)@.contains_key(index) && d@ == old(self)@[index],
                None => !old(self)@.contains_key(index),
            },
    {
        let r = self.map.remove(&index);
        assert(self@ =~= old(self)@.remove(index));
        r
    }

    /// Assign a block to a peer, if the piece is in flight.
    pub fn mark_requested(&mut self, index: u32, begin: u32, addr: PeerAddr)
        requires
            old(self).wf(),
        ensures
            final(self).wf(),
            final(self).order() == old(self).order(),
            final(self)@ == if old(self)@.contains_key(index) {
                old(self)@.insert(index, old(self)@[index].with_assignment(begin, Some(addr)))
            } else {
                old(self)@
            },
    {
        if let Some(d) = self.map.get_mut(&index) {
            d.mark_requested(begin, addr);
        }
        assert(self@ =~= if old(self)@.contains_key(index) {
            old(self)@.insert(index, old(self)@[index].with_assignment(begin, Some(addr)))
        } else {
            old(self)@
        });
    }

    /// Free a block, if the piece is in flight.
    pub fn unrequest(&mut self, index: u32, begin: u32)
        requires
            old(self).wf(),
        ensures
            final(self).wf(),
            final(self).order() == old(self).order(),
            final(self)@ == unrequest(old(self)@, index, begin),
    {
        if let Some(d) = self.map.get_mut(&index) {
            d.unrequest(begin);
        }
        assert(self@ =~= unrequest(old(self)@, index, begin));
    }

    /// Store a block, if the piece is in flight. Returns whether the piece is complete.
    pub fn mark_received(&mut self, index: u32, begin: u32, data: &[u8]) -> (complete: bool)
        requires
            old(self).wf(),
        ensures
            final(self).wf(),
            final(self).order() == old(self).order(),
            old(self)@.contains_key(index) ==> final(self)@ == old(self)@.insert(
                index,
                old(self)@[index].with_block(begin, data@),
            ) && complete == crate::seqs::all_true(
                old(self)@[index].with_block(begin, data@).received,
            ),
            !old(self)@.contains_key(index) ==> final(self)@ == old(self)@ && !complete,
    {
        let complete = match self.map.get_mut(&index) {
            Some(d) => d.mark_received(begin, data),
            None => false,
        };
        assert(self@ =~= if old(self)@.contains_key(index) {
            old(self)@.insert(index, old(self)@[index].with_block(begin, data@))
        } else {
            old(self)@
        });
        complete
    }

    /// Free the blocks of all these requests.
    pub fn release(&mut self, slots: &[Option<BlockRequest>; 5])
        requires
            old(self).wf(),
        ensures
            final(self).wf(),
            final(self).order() == old(self).order(),
            final(self)@ == release(old(self)@, slots@),
    {
        let ghost dls = self@;
        let mut j: usize = 0;
        proof {
            self.lemma_wf();
            lemma_clear_none(
                dls,
                |i: u32, b: int| asks_for(slots@.take(0), i, b, dls[i].block_size),
            );
        }
        while j < 5
            invariant
                j <= 5,
                self.wf(),
                self.order() == old(self).order(),
                slots@.len() == 5,
                forall|i: u32| #[trigger] dls.contains_key(i) ==> dls[i].block_size > 0,
                self@ == release(dls, slots@.take(j as int)),
            decreases 5 - j,
        {
            proof {
                self.lemma_wf();
                lemma_release_step(dls, slots@, j as int);
            }
            if let Some(r) = slots[j] {
                self.unrequest(r.0, r.1);
            }
            j += 1;
        }
        assert(slots@.take(5) =~= slots@);
    }

    /// Free the blocks assigned to a peer.
    pub fn forget(&mut self, addr: PeerAddr)
        requires
            old(self).wf(),
        ensures
            final(self).wf(),
            final(self).order() == old(self).order(),
            final(self)@ == forget(old(self)@, addr),
    {
        let ghost dls = self@;
        let ghost target = forget(dls, addr);
        let indices = self.map.keys();
        proof {
            self.lemma_wf();
        }
        let mut k: usize = 0;
        while k < indices.len()
            invariant
                k <= indices@.len(),
                self.wf(),
                indices@ == old(self).order(),
                self.order() == old(self).order(),
                indices@.no_duplicates(),
                dls == old(self)@,
                target == forget(dls, addr),
                forall|i: u32| #[trigger] dls.contains_key(i) <==> indices@.contains(i),
                forall|i: u32| #[trigger] self@.contains_key(i) <==> dls.contains_key(i),
                forall|m: int| 0 <= m < k ==> self@[#[trigger] indices@[m]] == target[indices@[m]],
                forall|m: int| k <= m < indices@.len() ==> self@[#[trigger] indices@[m]] == dls[indices@[m]],
            decreases indices@.len() - k,
        {
            let index = indices[k];
            assert(self@.contains_key(index));
            let ghost before = self@;
            if let Some(d) = self.map.get_mut(&index) {
                forget_in(d, addr);
            }
            proof {
                assert(self@ =~= before.insert(index, self@[index]));
                assert(self@[index] =~= target[index]);
            }
            k += 1;
        }
        proof {
            assert forall|i: u32| dls.contains_key(i) implies self@[i] == target[i] by {
                let m = choose|m: int| 0 <= m < indices@.len() && indices@[m] == i;
            }
            assert(self@ =~= target);
        }
    }
}

fn forget_in(d: &mut ActiveDownload, addr: PeerAddr)
    requires
        old(d)@.wf(),
    ensures
        final(d)@.wf(),
        final(d)@ == (DownloadView {
            requested: Seq::new(
                old(d)@.requested.len(),
                |b: int|
                    if old(d)@.requested[b] == Some(addr) {
                        None
                    } else {
                        old(d)@.requested[b]
                    },
            ),
            ..old(d)@
        }),
{
    let mut b: usize = 0;
    while b < d.requested.len()
        invariant
            b <= d.requested@.len(),
            d.requested@.len() == old(d).requested@.len(),
            d.index == old(d).index,
            d.data == old(d).data,
            d.received == old(d).received,
            d.block_size == old(d).block_size,
            d.num_blocks == old(d).num_blocks,
            forall|m: int|
                0 <= m < b ==> #[trigger] d.requested@[m] == if old(d).requested@[m] == Some(addr) {
                    None
                } else {
                    old(d).requested@[m]
                },
            forall|m: int| b <= m < d.requested@.len() ==> d.requested@[m] == old(d).requested@[m],
        decreases d.requested@.len() - b,
    {
        let mine = match d.requested[b] {
            Some(a) => a == addr,
            None => false,
        };
        if mine {
            d.requested[b] = None;
        }
        b += 1;
    }
    assert(d@ =~= (DownloadView {
        requested: Seq::new(
            old(d)@.requested.len(),
            |m: int|
                if old(d)@.requested[m] == Some(addr) {
                    None
                } else {
                    old(d)@.requested[m]
                },
        ),
        ..old(d)@
    }));
}

/// Whether one request is for this block.
pub open spec fn slot_asks(
    slot: Option<BlockRequest>,
    index: u32,
    block: int,
    block_size: u32,
) -> bool {
    slot matches Some(r) && r.0 == index && r.1 as int / block_size as int == block
}

/// One more slot asks for one more block.
pub proof fn lemma_asks_take(slots: Seq<Option<BlockRequest>>, j: int)
    requires
        0 <= j < slots.len(),
    ensures
        forall|i: u32, b: int, bs: u32| #[trigger]
            asks_for(slots.take(j + 1), i, b, bs) <==> asks_for(slots.take(j), i, b, bs)
                || slot_asks(slots[j], i, b, bs),
{
    assert forall|i: u32, b: int, bs: u32| #[trigger]
        asks_for(slots.take(j + 1), i, b, bs) <==> asks_for(slots.take(j), i, b, bs) || slot_asks(
            slots[j],
            i,
            b,
            bs,
        ) by {
        let s = slots.take(j + 1);
        let t = slots.take(j);
        if asks_for(s, i, b, bs) {
            let m = choose|m: int| 0 <= m < s.len() && slot_asks(#[trigger] s[m], i, b, bs);
        }
        if asks_for(t, i, b, bs) {
            let m = choose|m: int| 0 <= m < t.len() && slot_asks(#[trigger] t[m], i, b, bs);
        }
        if slot_asks(slots[j], i, b, bs) {
            assert(s[j] == slots[j]);
        }
    }
}

/// Releasing one more slot frees the block it asks for.
pub proof fn lemma_release_step(
    dls: Map<u32, DownloadView>,
    slots: Seq<Option<BlockRequest>>,
    j: int,
)
    requires
        0 <= j < slots.len(),
        forall|i: u32| #[trigger] dls.contains_key(i) ==> dls[i].block_size > 0,
    ensures
        release(dls, slots.take(j + 1)) == match slots[j] {
            Some(r) => unrequest(release(dls, slots.take(j)), r.0, r.1),
            None => release(dls, slots.take(j)),
        },
{
    let before = release(dls, slots.take(j));
    let after = release(dls, slots.take(j + 1));
    let step = match slots[j] {
        Some(r) => unrequest(before, r.0, r.1),
        None => before,
    };
    lemma_asks_take(slots, j);
    if let Some(r) = slots[j] {
        lemma_unrequest_clears(before, r.0, r.1);
    }
    assert forall|i: u32| dls.contains_key(i) implies step[i] == after[i] by {
        let bs = dls[i].block_size;
        assert forall|b: int| 0 <= b < dls[i].requested.len() implies step[i].requested[b]
            == after[i].requested[b] by {
            assert(asks_for(slots.take(j + 1), i, b, bs) <==> asks_for(slots.take(j), i, b, bs)
                || slot_asks(slots[j], i, b, bs));
        }
        assert(step[i].requested =~= after[i].requested);
        assert(step[i] =~= after[i]);
    }
    assert(step =~= after);
}

/// The peers of a torrent, by address.
pub struct Peers {
    map: VecMap<PeerAddr, PeerInfo>,
}

impl View for Peers {
    type V = Map<PeerAddr, PeerView>;

    closed spec fn view(&self) -> Map<PeerAddr, PeerView> {
        Map::new(|a: PeerAddr| self.map@.contains_key(a), |a: PeerAddr| self.map@[a]@)
    }
}

impl Peers {
    /// Every address occurs once.
    pub closed spec fn wf(&self) -> bool {
        self.map.wf()
    }

    /// The addresses in the order in which the peers came.
    pub closed spec fn order(&self) -> Seq<PeerAddr> {
        self.map.order()
    }

    /// What a well-formed table guarantees of its view.
    pub proof fn lemma_wf(&self)
        requires
            self.wf(),
        ensures
            forall|a: PeerAddr| #[trigger] self@.contains_key(a) <==> self.order().contains(a),
            self.order().no_duplicates(),
            self@.dom().finite(),
            self@.dom() == self.order().to_set(),
            self@.dom().len() == self.order().len(),
    {
        self.map.lemma_order();
        assert(self@.dom() =~= self.map@.dom());
    }

    /// No peers.
    pub fn new() -> (p: Peers)
        ensures
            p.wf(),
            p@ == Map::<PeerAddr, PeerView>::empty(),
            p.order() == Seq::<PeerAddr>::empty(),
    {
        let p = Peers { map: VecMap::new() };
        assert(p@ =~= Map::<PeerAddr, PeerView>::empty());
        p
    }

    /// The number of peers.
    pub fn len(&self) -> (n: usize)
        requires
            self.wf(),
        ensures
            n == self.order().len(),
            n == self@.dom().len(),
    {
        proof {
            self.lemma_wf();
        }
        self.map.len()
    }

    /// The addresses, oldest first.
    pub fn addrs(&self) -> (r: Vec<PeerAddr>)
        requires
            self.wf(),
        ensures
            r@ == self.order(),
    {
        self.map.keys()
    }

    /// The state of a peer.
    pub fn get(&self, addr: &PeerAddr) -> (r: Option<&PeerInfo>)
        requires
            self.wf(),
        ensures
            match r {
                Some(p) => self@.contains_key(*addr) && p@ == self@[*addr],
                None => !self@.contains_key(*addr),
            },
    {
        self.map.get(addr)
    }

    /// The state of a peer, to be changed in place.
    pub fn get_mut(&mut self, addr: &PeerAddr) -> (r: Option<&mut PeerInfo>)
        requires
            old(self).wf(),
        ensures
            final(self).wf(),
            final(self).order() == old(self).order(),
            match r {
                Some(p) => {
                    &&& old(self)@.contains_key(*addr)
                    &&& p@ == old(self)@[*addr]
                    &&& final(self)@ == old(self)@.insert(*addr, final(p)@)
                },
                None => !old(self)@.contains_key(*addr) && final(self)@ == old(self)@,
            },
    {
        match self.map.get_mut(addr) {
            Some(p) => {
                proof {
                    lemma_deep_insert(old(self).map@, *addr, *final(p));
                }
                Some(p)
            },
            None => None,
        }
    }

    /// Set the state of a peer.
    pub fn insert(&mut self, addr: PeerAddr, p: PeerInfo)
        requires
            old(self).wf(),
        ensures
            final(self).wf(),
            final(self)@ == old(self)@.insert(addr, p@),
            final(self).order() == if old(self)@.contains_key(addr) {
                old(self).order()
            } else {
                old(self).order().push(addr)
            },
    {
        self.map.insert(addr, p);
        assert(self@ =~= old(self)@.insert(addr, p@));
    }

    /// Forget a peer.
    pub fn remove(&mut self, addr: &PeerAddr) -> (r: Option<PeerInfo>)
        requires
            old(self).wf(),
        ensures
            final(self).wf(),
            final(self)@ == old(self)@.remove(*addr),
            match r {
                Some(p) => old(self)@.contains_key(*addr) && p@ == old(self)@[*addr],
                None => !old(self)@.contains_key(*addr),
            },
    {
        let r = self.map.remove(addr);
        assert(self@ =~= old(self)@.remove(*addr));
        r
    }
}

proof fn lemma_deep_insert(m: Map<PeerAddr, PeerInfo>, k: PeerAddr, v: PeerInfo)
    ensures
        Map::new(|a: PeerAddr| m.insert(k, v).contains_key(a), |a: PeerAddr| m.insert(k, v)[a]@)
            == Map::new(|a: PeerAddr| m.contains_key(a), |a: PeerAddr| m[a]@).insert(k, v@),
{
    assert(Map::new(|a: PeerAddr| m.insert(k, v).contains_key(a), |a: PeerAddr| m.insert(k, v)[a]@)
        =~= Map::new(|a: PeerAddr| m.contains_key(a), |a: PeerAddr| m[a]@).insert(k, v@));
}

} // verus!
