use vstd::prelude::*;

use crate::primitives::{OrderIx, Place};

verus! {

pub const TRACKED_MASK: u16 = 0x8000;

pub const RESOLVED_MASK: u16 = 0x4000;

/// Flags of one variable slot and the stamp of the resolver producing it.
#[derive(Clone, Copy, Debug)]
pub struct Metadata {
    pub data: u16,
    pub tracker: OrderIx,
}

impl Metadata {
    /// The producer of this slot has been announced to the order.
    pub open spec fn tracked_flag(self) -> bool {
        self.data & TRACKED_MASK != 0
    }

    /// The value of this slot has been written.
    pub open spec fn resolved_flag(self) -> bool {
        self.data & RESOLVED_MASK != 0
    }

    pub fn empty() -> (r: Metadata)
        ensures
            !r.tracked_flag(),
            !r.resolved_flag(),
            r.tracker.0 == 0,
    {
        assert(0u16 & 0x8000 == 0 && 0u16 & 0x4000 == 0) by (bit_vector);
        Metadata { data: 0, tracker: OrderIx(0) }
    }

    pub open spec fn new_spec(tracker: OrderIx) -> Metadata {
        Metadata { data: TRACKED_MASK, tracker }
    }

    pub proof fn lemma_new_spec_flags(tracker: OrderIx)
        ensures
            Metadata::new_spec(tracker).tracked_flag(),
            !Metadata::new_spec(tracker).resolved_flag(),
            Metadata::new_resolved_spec().tracked_flag(),
            Metadata::new_resolved_spec().resolved_flag(),
    {
        assert(0x8000u16 & 0x8000u16 != 0) by (bit_vector);
        assert(0x8000u16 & 0x4000u16 == 0) by (bit_vector);
        assert((0x8000u16 | 0x4000u16) & 0x8000u16 != 0) by (bit_vector);
        assert((0x8000u16 | 0x4000u16) & 0x4000u16 != 0) by (bit_vector);
    }

    pub open spec fn new_resolved_spec() -> Metadata {
        Metadata { data: TRACKED_MASK | RESOLVED_MASK, tracker: OrderIx(0) }
    }

    pub fn new(tracker: OrderIx) -> (r: Metadata)
        ensures
            r == Metadata::new_spec(tracker),
            r.tracked_flag(),
            !r.resolved_flag(),
            r.tracker == tracker,
    {
        assert(0x8000u16 & 0x8000 != 0 && 0x8000u16 & 0x4000 == 0) by (bit_vector);
        Metadata { data: TRACKED_MASK, tracker }
    }

    pub fn new_resolved() -> (r: Metadata)
        ensures
            r == Metadata::new_resolved_spec(),
            r.tracked_flag(),
            r.resolved_flag(),
            r.tracker.0 == 0,
    {
        assert((0x8000u16 | 0x4000u16) & 0x8000 != 0 && (0x8000u16 | 0x4000u16) & 0x4000 != 0)
            by (bit_vector);
        Metadata { data: TRACKED_MASK | RESOLVED_MASK, tracker: OrderIx(0) }
    }

    pub fn is_tracked(&self) -> (r: bool)
        ensures
            r == self.tracked_flag(),
    {
        self.data & TRACKED_MASK != 0
    }

    pub fn is_resolved(&self) -> (r: bool)
        ensures
            r == self.resolved_flag(),
    {
        self.data & RESOLVED_MASK != 0
    }

    pub fn mark_resolved(&mut self)
        ensures
            final(self).data == old(self).data | RESOLVED_MASK,
            final(self).resolved_flag(),
            final(self).tracked_flag() == old(self).tracked_flag(),
            final(self).tracker == old(self).tracker,
    {
        let d = self.data;
        assert((d | 0x4000u16) & 0x4000 != 0) by (bit_vector);
        assert(((d | 0x4000u16) & 0x8000 != 0) == (d & 0x8000 != 0)) by (bit_vector);
        self.data = d | RESOLVED_MASK;
    }
}

/// The value table: one `(value, metadata)` slot per variable key.
pub struct Values<V> {
    pub variables: Vec<(V, Metadata)>,
    /// Every key up to and including this one is tracked; `-1` when key `0` is not.
    pub max_tracked: i64,
}

impl<V: Copy> Values<V> {
    pub open spec fn len(&self) -> nat {
        self.variables@.len()
    }

    pub open spec fn md(&self, i: int) -> Metadata {
        self.variables@[i].1
    }

    pub open spec fn val(&self, i: int) -> V {
        self.variables@[i].0
    }

    pub open spec fn wf(&self) -> bool {
        &&& self.variables@.len() < i64::MAX
        &&& self.variables@.len() <= usize::MAX
        &&& -1 <= self.max_tracked < self.variables@.len()
        &&& forall|i: int| 0 <= i <= self.max_tracked ==> (#[trigger] self.variables@[i]).1.tracked_flag()
    }

    /// `max_tracked` ends the longest fully tracked prefix of the keys.
    pub open spec fn prefix_is_maximal(&self) -> bool {
        self.max_tracked + 1 == self.variables@.len()
            || !self.md(self.max_tracked + 1).tracked_flag()
    }

    pub fn new(max_variables: usize, filler: V) -> (r: Values<V>)
        requires
            max_variables < i64::MAX,
        ensures
            r.wf(),
            r.prefix_is_maximal(),
            r.len() == max_variables,
            forall|i: int|
                0 <= i < max_variables ==> !(#[trigger] r.variables@[i]).1.tracked_flag()
                    && !r.variables@[i].1.resolved_flag() && r.variables@[i].1.tracker.0 == 0,
    {
        let mut variables: Vec<(V, Metadata)> = Vec::with_capacity(max_variables);
        let mut i: usize = 0;
        while i < max_variables
            invariant
                i <= max_variables,
                variables@.len() == i,
                forall|j: int|
                    0 <= j < i ==> !(#[trigger] variables@[j].1).tracked_flag()
                        && !variables@[j].1.resolved_flag() && variables@[j].1.tracker.0 == 0,
            decreases max_variables - i,
        {
            variables.push((filler, Metadata::empty()));
            i = i + 1;
        }
        Values { variables, max_tracked: -1 }
    }

    pub fn get_item_ref(&self, key: Place) -> (r: &(V, Metadata))
        requires
            key.0 < self.len(),
        ensures
            *r == self.variables@[key.0 as int],
    {
        &self.variables[key.0]
    }

    /// Extends `max_tracked` over the tracked keys that follow it.
    pub fn advance_track(&mut self)
        requires
            old(self).wf(),
        ensures
            final(self).wf(),
            final(self).prefix_is_maximal(),
            final(self).variables == old(self).variables,
            final(self).max_tracked >= old(self).max_tracked,
    {
        let n = self.variables.len();
        let mut i: i64 = self.max_tracked + 1;
        while (i as usize) < n && self.variables[i as usize].1.is_tracked()
            invariant
                self.wf(),
                i == self.max_tracked + 1,
                n == self.variables@.len(),
                self.variables == old(self).variables,
                self.max_tracked >= old(self).max_tracked,
            decreases n - i,
        {
            self.max_tracked = i;
            i = i + 1;
        }
    }

    /// Assigns `value` to an untracked key; it is then tracked and resolved,
    /// with the default stamp.
    pub fn set_value(&mut self, key: Place, value: V)
        requires
            old(self).wf(),
            key.0 < old(self).len(),
            !old(self).variables@[key.0 as int].1.tracked_flag(),
        ensures
            final(self).wf(),
            final(self).prefix_is_maximal(),
            final(self).variables@ == old(self).variables@.update(
                key.0 as int,
                (value, Metadata::new_resolved_spec()),
            ),
    {
        let md = Metadata::new_resolved();
        self.variables.set(key.0, (value, md));
        assert(self.wf());
        self.advance_track();
    }

    /// Stamps each key with `loc`: tracked, not resolved. Each key must be
    /// untracked and listed once.
    pub fn track_values(&mut self, keys: &[Place], loc: OrderIx)
        requires
            old(self).wf(),
            keys@.no_duplicates(),
            forall|j: int| 0 <= j < keys@.len() ==> (#[trigger] keys@[j]).0 < old(self).len(),
            forall|j: int|
                0 <= j < keys@.len() ==> !old(self).md((#[trigger] keys@[j]).0 as int).tracked_flag(),
        ensures
            final(self).wf(),
            final(self).prefix_is_maximal(),
            final(self).len() == old(self).len(),
            forall|i: int|
                0 <= i < old(self).len() ==> (#[trigger] final(self).variables@[i]) == if keys@.contains(
                    Place(i as usize),
                ) {
                    (old(self).val(i), Metadata::new_spec(loc))
                } else {
                    old(self).variables@[i]
                },
    {
        let mut k: usize = 0;
        while k < keys.len()
            invariant
                self.wf(),
                0 <= k <= keys@.len(),
                self.len() == old(self).len(),
                forall|j: int| 0 <= j < keys@.len() ==> (#[trigger] keys@[j]).0 < old(self).len(),
                forall|i: int|
                    0 <= i < old(self).len() ==> (#[trigger] self.variables@[i]) == if keys@.subrange(
                        0,
                        k as int,
                    ).contains(Place(i as usize)) {
                        (old(self).val(i), Metadata::new_spec(loc))
                    } else {
                        old(self).variables@[i]
                    },
            decreases keys@.len() - k,
        {
            let key = keys[k];
            let v = self.variables[key.0].0;
            let md = Metadata::new(loc);
            self.variables.set(key.0, (v, md));
            assert forall|i: int| 0 <= i < old(self).len() implies (#[trigger] self.variables@[i])
                == if keys@.subrange(0, k + 1).contains(Place(i as usize)) {
                (old(self).val(i), Metadata::new_spec(loc))
            } else {
                old(self).variables@[i]
            } by {
                assert(keys@.subrange(0, k + 1) == keys@.subrange(0, k as int).push(key));
                if i == key.0 {
                    assert(keys@.subrange(0, k + 1).contains(Place(i as usize))) by {
                        assert(keys@.subrange(0, k + 1)[k as int] == Place(i as usize));
                    }
                } else {
                    assert(Place(i as usize) != key);
                }
            }
            k = k + 1;
        }
        assert(keys@.subrange(0, keys@.len() as int) == keys@);
        self.advance_track();
    }

    /// Writes the value of a tracked key and marks it resolved.
    pub fn resolve(&mut self, key: Place, value: V)
        requires
            old(self).wf(),
            key.0 < old(self).len(),
        ensures
            final(self).wf(),
            final(self).max_tracked == old(self).max_tracked,
            final(self).len() == old(self).len(),
            final(self).val(key.0 as int) == value,
            final(self).md(key.0 as int).resolved_flag(),
            final(self).md(key.0 as int).tracked_flag() == old(self).md(key.0 as int).tracked_flag(),
            final(self).md(key.0 as int).tracker == old(self).md(key.0 as int).tracker,
            forall|i: int|
                0 <= i < old(self).len() && i != key.0 ==> #[trigger] final(self).variables@[i]
                    == old(self).variables@[i],
    {
        let mut md = self.variables[key.0].1;
        md.mark_resolved();
        self.variables.set(key.0, (value, md));
    }

    /// The largest stamp among `keys`; zero when there are none.
    pub fn max_tracker(&self, keys: &[Place]) -> (r: u32)
        requires
            forall|j: int| 0 <= j < keys@.len() ==> (#[trigger] keys@[j]).0 < self.len(),
        ensures
            forall|j: int|
                0 <= j < keys@.len() ==> self.md((#[trigger] keys@[j]).0 as int).tracker.0 <= r,
            keys@.len() == 0 ==> r == 0,
            keys@.len() > 0 ==> exists|j: int|
                0 <= j < keys@.len() && self.md((#[trigger] keys@[j]).0 as int).tracker.0 == r,
    {
        let mut m: u32 = 0;
        let mut i: usize = 0;
        while i < keys.len()
            invariant
                i <= keys@.len(),
                forall|j: int| 0 <= j < keys@.len() ==> (#[trigger] keys@[j]).0 < self.len(),
                forall|j: int|
                    0 <= j < i ==> self.md((#[trigger] keys@[j]).0 as int).tracker.0 <= m,
                i == 0 ==> m == 0,
                i > 0 ==> exists|j: int|
                    0 <= j < i && self.md((#[trigger] keys@[j]).0 as int).tracker.0 == m,
            decreases keys@.len() - i,
        {
            let t = self.variables[keys[i].0].1.tracker.0;
            if i == 0 || t > m {
                m = t;
                assert(self.md(keys@[i as int].0 as int).tracker.0 == m);
            }
            i = i + 1;
        }
        m
    }
}

} // verus!
