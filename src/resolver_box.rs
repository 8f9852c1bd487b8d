use vstd::prelude::*;

use crate::primitives::{Place, ResolverIx};

verus! {

/// The inputs and outputs of one registered resolution.
pub struct ResolverRecord {
    pub inputs: Vec<Place>,
    pub outputs: Vec<Place>,
}

/// Append-only store of resolver records. The record registered `n`-th lives
/// at index `2 * n`, so the type bit of its index is clear.
pub struct ResolverBox {
    pub records: Vec<ResolverRecord>,
}

/// The largest number of records a box holds: their indices and the order
/// stamps derived from them fit in `u32`.
pub const MAX_RESOLVERS: usize = 0x3fff_ffff;

pub open spec fn ix_of(n: int) -> u32 {
    (2 * n) as u32
}

pub fn copy_places(s: &[Place]) -> (r: Vec<Place>)
    ensures
        r@ == s@,
{
    let mut r: Vec<Place> = Vec::with_capacity(s.len());
    let mut i: usize = 0;
    while i < s.len()
        invariant
            i <= s@.len(),
            r@ == s@.subrange(0, i as int),
        decreases s@.len() - i,
    {
        r.push(s[i]);
        i = i + 1;
        assert(r@ == s@.subrange(0, i as int));
    }
    assert(s@.subrange(0, s@.len() as int) == s@);
    r
}

impl ResolverBox {
    pub open spec fn len(&self) -> nat {
        self.records@.len()
    }

    pub open spec fn inputs_of(&self, n: int) -> Seq<Place> {
        self.records@[n].inputs@
    }

    pub open spec fn outputs_of(&self, n: int) -> Seq<Place> {
        self.records@[n].outputs@
    }

    pub fn new() -> (r: ResolverBox)
        ensures
            r.len() == 0,
    {
        ResolverBox { records: Vec::new() }
    }

    pub fn push(&mut self, inputs: &[Place], outputs: &[Place]) -> (r: ResolverIx)
        requires
            old(self).len() < MAX_RESOLVERS,
        ensures
            final(self).len() == old(self).len() + 1,
            forall|n: int|
                0 <= n < old(self).len() ==> #[trigger] final(self).records@[n] == old(
                    self,
                ).records@[n],
            final(self).inputs_of(old(self).len() as int) == inputs@,
            final(self).outputs_of(old(self).len() as int) == outputs@,
            r.0 == ix_of(old(self).len() as int),
            r.0 == 2 * old(self).len(),
    {
        let n = self.records.len();
        let rec = ResolverRecord { inputs: copy_places(inputs), outputs: copy_places(outputs) };
        self.records.push(rec);
        ResolverIx((2 * n) as u32)
    }

    pub fn get(&self, ix: ResolverIx) -> (r: &ResolverRecord)
        requires
            ix.0 % 2 == 0,
            ix.0 / 2 < self.len(),
        ensures
            *r == self.records@[(ix.0 / 2) as int],
    {
        &self.records[ix.normalized() / 2]
    }
}

} // verus!
