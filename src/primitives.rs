use vstd::prelude::*;

verus! {

/// The key of one variable slot. Keys are dense and zero-based.
#[derive(Clone, Copy, Debug, PartialEq, Eq, Structural)]
pub struct Place(pub usize);

impl Place {
    pub fn from_variable(ix: usize) -> (r: Place)
        ensures
            r.0 == ix,
    {
        Place(ix)
    }

    pub fn raw_ix(&self) -> (r: usize)
        ensures
            r == self.0,
    {
        self.0
    }

    pub fn as_any_index(&self) -> (r: u64)
        ensures
            r == self.0,
    {
        self.0 as u64
    }
}

/// A position stamp in the execution order. Zero is the default stamp, carried
/// by values that were assigned directly; the resolver sequenced at order
/// position `k` stamps its outputs with `k + 1`.
#[derive(Clone, Copy, Debug, PartialEq, Eq, Structural)]
pub struct OrderIx(pub u32);

impl OrderIx {
    pub fn zero() -> (r: OrderIx)
        ensures
            r.0 == 0,
    {
        OrderIx(0)
    }

    /// The stamp given to the outputs of the resolver at order position `pos`.
    pub fn after_position(pos: usize) -> (r: OrderIx)
        requires
            pos < u32::MAX,
        ensures
            r.0 == pos + 1,
    {
        OrderIx((pos + 1) as u32)
    }

    pub fn as_usize(&self) -> (r: usize)
        ensures
            r == self.0,
    {
        self.0 as usize
    }
}

/// Index of an entry in the resolver box. The lowest bit tells a jump entry
/// (set) from a resolver entry (clear).
#[derive(Clone, Copy, Debug, PartialEq, Eq, Structural)]
pub struct ResolverIx(pub u32);

pub enum ResolverIxType {
    Jump,
    Resolver,
}

pub const TYPE_MASK: u32 = 1;

impl ResolverIx {
    pub open spec fn is_jump(self) -> bool {
        self.0 % 2 == 1
    }

    pub fn get_type(self) -> (r: ResolverIxType)
        ensures
            r is Jump <==> self.is_jump(),
    {
        let x = self.0;
        assert(x & 1 == 0 <==> x % 2 == 0) by (bit_vector);
        if x & TYPE_MASK == 0 {
            ResolverIxType::Resolver
        } else {
            ResolverIxType::Jump
        }
    }

    pub fn new_jump(value: u32) -> (r: ResolverIx)
        ensures
            r.is_jump(),
            r.0 == value - value % 2 + 1,
    {
        let r = value | TYPE_MASK;
        assert((value | 1) % 2 == 1) by (bit_vector);
        assert((value | 1) == value - value % 2 + 1) by (bit_vector);
        ResolverIx(r)
    }

    pub fn new_resolver(value: u32) -> (r: ResolverIx)
        ensures
            r.0 == value,
    {
        ResolverIx(value)
    }

    /// The index with the type bit cleared.
    pub fn normalized(&self) -> (r: usize)
        ensures
            r == self.0 - self.0 % 2,
    {
        let x = self.0;
        assert(!1u32 & x == x - x % 2) by (bit_vector);
        (!TYPE_MASK & x) as usize
    }
}

} // verus!
