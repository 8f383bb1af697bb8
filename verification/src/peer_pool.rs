//! A positional pool of peer ids with one-based handles; handle zero is
//! the null handle and resolves to nothing.

use vstd::prelude::*;

verus! {

/// A pool of peer identifiers, appended in arrival order.
pub struct PeerPool {
    pub vec: Vec<u64>,
}

/// A one-based handle into a [`PeerPool`]; zero stands for no peer.
#[derive(Clone, Copy)]
pub struct PeerIdx(pub u32);

/// The peer a handle resolves to, if any.
pub open spec fn peer_of(pool: PeerPool, idx: PeerIdx) -> Option<u64> {
    if idx.0 == 0 {
        None
    } else {
        Some(pool.vec@[idx.0 as int - 1])
    }
}

impl PeerIdx {
    /// Order two handles by the peers they resolve to, an unresolved
    /// handle first.
    pub fn cmp(&self, other: &Self, ctx: &PeerPool) -> (r: core::cmp::Ordering)
        requires
            self.0 <= ctx.vec@.len(),
            other.0 <= ctx.vec@.len(),
        ensures
            r == core::cmp::Ordering::Less <==> opt_lt(peer_of(*ctx, *self), peer_of(*ctx, *other)),
            r == core::cmp::Ordering::Greater <==> opt_lt(
                peer_of(*ctx, *other),
                peer_of(*ctx, *self),
            ),
            r == core::cmp::Ordering::Equal <==> peer_of(*ctx, *self) == peer_of(*ctx, *other),
    {
        let a = ctx.get(*self);
        let b = ctx.get(*other);
        match a {
            None => match b {
                None => core::cmp::Ordering::Equal,
                Some(_) => core::cmp::Ordering::Less,
            },
            Some(x) => match b {
                None => core::cmp::Ordering::Greater,
                Some(y) => {
                    if x < y {
                        core::cmp::Ordering::Less
                    } else if x == y {
                        core::cmp::Ordering::Equal
                    } else {
                        core::cmp::Ordering::Greater
                    }
                },
            },
        }
    }
}

/// `None` sorts before every peer; peers sort by value.
pub open spec fn opt_lt(a: Option<u64>, b: Option<u64>) -> bool {
    match b {
        None => false,
        Some(y) => match a {
            None => true,
            Some(x) => x < y,
        },
    }
}

impl PeerPool {
    /// An empty pool.
    pub fn new() -> (r: Self)
        ensures
            r.vec@.len() == 0,
    {
        PeerPool { vec: Vec::new() }
    }

    /// Append a peer, returning its one-based handle. Every call appends:
    /// this pool does not deduplicate.
    pub fn intern(&mut self, peer: u64) -> (r: PeerIdx)
        requires
            old(self).vec@.len() < u32::MAX,
        ensures
            final(self).vec@ == old(self).vec@.push(peer),
            r.0 == old(self).vec@.len() + 1,
    {
        let idx = self.vec.len() as u32;
        self.vec.push(peer);
        PeerIdx(idx + 1)
    }

    /// Resolve a handle; the null handle resolves to nothing.
    pub fn get(&self, idx: PeerIdx) -> (r: Option<u64>)
        requires
            idx.0 <= self.vec@.len(),
        ensures
            r == peer_of(*self, idx),
    {
        if idx.0 == 0 {
            return None;
        }
        Some(self.vec[(idx.0 - 1) as usize])
    }
}

} // verus!
