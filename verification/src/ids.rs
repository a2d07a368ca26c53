//! Identifiers for sites and assets, and the asset-id allocator.

use vstd::prelude::*;

verus! {

/// A globally unique, opaque handle for an asset (flat 32-bit shape).
#[derive(Clone, Copy, PartialEq, Eq, Structural, Debug, Hash)]
pub struct AssetId(pub u32);

/// A stable network-wide identifier for a site: the raw bytes of its
/// long-term Ed25519 signing public key. Equality is structural over the
/// key bytes, and the bytes are immutable for a site's lifetime.
#[derive(Clone, Copy, Eq, Debug, Hash)]
pub struct SiteId {
    bytes: [u8; 32],
}

impl View for SiteId {
    type V = Seq<u8>;

    closed spec fn view(&self) -> Seq<u8> {
        self.bytes@
    }
}

impl SiteId {
    pub fn new(bytes: [u8; 32]) -> (r: Self)
        ensures
            r@ == bytes@,
    {
        SiteId { bytes }
    }

    pub fn key_bytes(&self) -> (r: &[u8; 32])
        ensures
            r@ == self@,
    {
        &self.bytes
    }
}

impl PartialEq for SiteId {
    fn eq(&self, other: &Self) -> (r: bool) {
        let mut i: usize = 0;
        while i < 32
            invariant
                0 <= i <= 32,
                forall|j: int| 0 <= j < i ==> self.bytes@[j] == other.bytes@[j],
            decreases 32 - i,
        {
            if self.bytes[i] != other.bytes[i] {
                return false;
            }
            i = i + 1;
        }
        proof {
            assert(self.bytes =~= other.bytes);
        }
        true
    }
}

impl vstd::std_specs::cmp::PartialEqSpecImpl for SiteId {
    open spec fn obeys_eq_spec() -> bool {
        true
    }

    open spec fn eq_spec(&self, other: &SiteId) -> bool {
        *self == *other
    }
}

/// Two site identifiers are equal exactly when their key bytes agree.
pub proof fn lemma_site_id_eq_bytes(a: SiteId, b: SiteId)
    ensures
        a == b <==> a@ == b@,
{
    if a@ == b@ {
        assert(a.bytes =~= b.bytes);
    }
}

/// The allocator ran out of fresh indices.
#[derive(Clone, Copy, PartialEq, Eq, Structural, Debug)]
pub enum AllocError {
    Exhausted,
}

/// An asset-id allocator: a 32-bit counter plus a free-list of reclaimed
/// indices. `allocate` prefers the free-list and otherwise emits the counter
/// and increments it; it fails with `Exhausted` only once the counter
/// saturates. With the flat identifier shape an id is safe to reissue only
/// if this allocator minted it, so `free` keeps an id exactly when it lies
/// below the counter and is not already on the free-list.
pub struct AssetIdAllocator {
    next_index: u32,
    free_list: Vec<u32>,
}

impl AssetIdAllocator {
    /// Indices already handed back and available for reissue.
    pub closed spec fn free_indices(&self) -> Seq<u32> {
        self.free_list@
    }

    /// The next never-yet-minted index.
    pub closed spec fn next(&self) -> u32 {
        self.next_index
    }

    /// Every reclaimed index was minted here, and none is listed twice.
    pub closed spec fn wf(&self) -> bool {
        &&& forall|i: int|
            0 <= i < self.free_list@.len() ==> self.free_list@[i] < self.next_index
        &&& forall|i: int, j: int|
            0 <= i < j < self.free_list@.len() ==> self.free_list@[i] != self.free_list@[j]
    }

    pub fn new() -> (r: Self)
        ensures
            r.wf(),
            r.next() == 0,
            r.free_indices() == Seq::<u32>::empty(),
    {
        AssetIdAllocator { next_index: 0, free_list: Vec::new() }
    }

    /// Mint a fresh asset id: the most recently reclaimed index if any,
    /// otherwise the counter.
    pub fn allocate(&mut self) -> (r: Result<AssetId, AllocError>)
        requires
            old(self).wf(),
        ensures
            final(self).wf(),
            old(self).free_indices().len() > 0 ==> {
                &&& r == Ok::<AssetId, AllocError>(AssetId(old(self).free_indices().last()))
                &&& final(self).free_indices() == old(self).free_indices().drop_last()
                &&& final(self).next() == old(self).next()
            },
            old(self).free_indices().len() == 0 && old(self).next() < u32::MAX ==> {
                &&& r == Ok::<AssetId, AllocError>(AssetId(old(self).next()))
                &&& final(self).free_indices() == old(self).free_indices()
                &&& final(self).next() == old(self).next() + 1
            },
            old(self).free_indices().len() == 0 && old(self).next() == u32::MAX ==> {
                &&& r == Err::<AssetId, AllocError>(AllocError::Exhausted)
                &&& final(self).free_indices() == old(self).free_indices()
                &&& final(self).next() == old(self).next()
            },
    {
        match self.free_list.pop() {
            Some(idx) => Ok(AssetId(idx)),
            None => {
                if self.next_index < u32::MAX {
                    let idx = self.next_index;
                    self.next_index = self.next_index + 1;
                    Ok(AssetId(idx))
                } else {
                    Err(AllocError::Exhausted)
                }
            },
        }
    }

    /// Hand an id back for reissue. Ids this allocator did not mint, and ids
    /// already on the free-list, are ignored.
    pub fn free(&mut self, id: AssetId)
        requires
            old(self).wf(),
        ensures
            final(self).wf(),
            final(self).next() == old(self).next(),
            id.0 < old(self).next() && !old(self).free_indices().contains(id.0)
                ==> final(self).free_indices() == old(self).free_indices().push(id.0),
            !(id.0 < old(self).next() && !old(self).free_indices().contains(id.0))
                ==> final(self).free_indices() == old(self).free_indices(),
    {
        if id.0 < self.next_index && !self.free_list_contains(id.0) {
            self.free_list.push(id.0);
        }
    }

    fn free_list_contains(&self, idx: u32) -> (r: bool)
        ensures
            r == self.free_indices().contains(idx),
    {
        let mut i: usize = 0;
        while i < self.free_list.len()
            invariant
                0 <= i <= self.free_list@.len(),
                forall|j: int| 0 <= j < i ==> self.free_list@[j] != idx,
            decreases self.free_list@.len() - i,
        {
            if self.free_list[i] == idx {
                return true;
            }
            i = i + 1;
        }
        false
    }
}

} // verus!
