use vstd::prelude::*;

use crate::primitives::{OrderIx, Place};
use crate::resolver::{places_below, CircuitResolver, Producer, SortingMode};
use crate::resolver_box::MAX_RESOLVERS;
use crate::values::Metadata;

verus! {

/// Why each step of the resolver keeps its invariants.
impl<V: Copy> CircuitResolver<V> {
    pub proof fn lemma_record_places(&self, n: int)
        requires
            self.inv_shapes(),
            0 <= n < self.recs().len(),
        ensures
            places_below(self.inputs_of(n), self.nvars()),
            places_below(self.outputs_of(n), self.nvars()),
            self.outputs_of(n).no_duplicates(),
    {
        assert(places_below(self.inputs_of(n), self.nvars()));
    }

    /// The relational invariants depend only on the tables, the order, the
    /// window's progress and the producers.
    pub(crate) proof fn lemma_core_wf_transfer(a: &Self, b: &Self)
        requires
            a.core_wf(),
            b.processed() <= b.size() <= b.items().len(),
            b.guide.chunk_start == b.size(),
            b.guide.parallelism >= 1,
            b.registration_complete ==> b.size() == b.items().len(),
            b.mode == SortingMode::Record ==> b.record.items@.len() == b.recs().len()
                && b.record.registrations_count == b.recs().len(),
            b.common.values == a.common.values,
            a.recs().len() <= b.recs().len() <= MAX_RESOLVERS,
            forall|n: int| 0 <= n < a.recs().len() ==> #[trigger] b.recs()[n] == a.recs()[n],
            forall|n: int|
                a.recs().len() <= n < b.recs().len() ==> places_below(
                    #[trigger] b.inputs_of(n),
                    b.nvars(),
                ) && places_below(b.outputs_of(n), b.nvars()) && b.outputs_of(n).no_duplicates(),
            b.items() == a.items(),
            b.processed() == a.processed(),
            b.registrar.producers@.len() == a.registrar.producers@.len(),
            forall|p: int|
                0 <= p < a.nvars() && a.is_tracked(p) ==> #[trigger] b.producer(p) == a.producer(p),
            forall|p: int|
                0 <= p < a.nvars() && #[trigger] b.producer(p) == Producer::Assigned ==> a.producer(p)
                    == Producer::Assigned,
            a.record.items@.len() <= b.record.items@.len(),
            forall|m: int|
                0 <= m < a.record.items@.len() ==> #[trigger] b.record.items@[m]
                    == a.record.items@[m],
            b.guide.chunk_of == a.guide.chunk_of,
            b.guide.parallelism == a.guide.parallelism,
            b.guide.chunk_start == a.guide.chunk_start || b.guide.chunk_start == b.items().len(),
        ensures
            b.core_wf(),
    {
        assert forall|k: int, j: int|
            0 <= k < b.guide.chunk_of@.len() && 0 <= j < b.inputs_of(b.reg_at(k)).len() implies b.tracker(
                (#[trigger] b.inputs_of(b.reg_at(k))[j]).0 as int,
            ) <= b.guide.chunk_of@[k] by {
            assert(a.items()[k] == b.items()[k]);
            assert(a.inputs_of(a.reg_at(k))[j] == b.inputs_of(b.reg_at(k))[j]);
        }
        assert forall|k: int| 0 <= k < b.items().len() implies #[trigger] b.reg_at(k)
            < b.record.items@.len() && b.record.items@[b.reg_at(k)].accepted_at == k by {
            assert(a.items()[k] == b.items()[k]);
            assert(a.reg_at(k) < a.record.items@.len());
        }
        assert forall|n: int| 0 <= n < b.recs().len() implies places_below(
            #[trigger] b.inputs_of(n),
            b.nvars(),
        ) && places_below(b.outputs_of(n), b.nvars()) && b.outputs_of(n).no_duplicates() by {
            if n < a.recs().len() {
                assert(a.recs()[n] == b.recs()[n]);
                a.lemma_record_places(n);
                assert(a.inputs_of(n) == b.inputs_of(n));
                assert(a.outputs_of(n) == b.outputs_of(n));
            } else {
                assert(places_below(b.inputs_of(n), b.nvars()));
                assert(places_below(b.outputs_of(n), b.nvars()));
            }
        }
        assert forall|k: int| 0 <= k < b.items().len() implies (#[trigger] b.items()[k]).value.0 % 2
            == 0 && b.items()[k].value.0 / 2 < b.recs().len() by {
            assert(a.items()[k] == b.items()[k]);
        }
        assert forall|k: int| 0 <= k < a.items().len() implies #[trigger] b.reg_at(k) == a.reg_at(k)
            && b.recs()[b.reg_at(k)] == a.recs()[a.reg_at(k)] by {
            assert(a.items()[k] == b.items()[k]);
        }
        assert forall|k: int, j: int|
            0 <= k < b.items().len() && 0 <= j < b.inputs_of(b.reg_at(k)).len() implies {
                let p = (#[trigger] b.inputs_of(b.reg_at(k))[j]).0 as int;
                b.is_tracked(p) && b.tracker(p) <= k
            } by {
            assert(b.reg_at(k) == a.reg_at(k));
            assert(a.inputs_of(a.reg_at(k))[j] == b.inputs_of(b.reg_at(k))[j]);
        }
        assert forall|k: int, j: int|
            0 <= k < b.items().len() && 0 <= j < b.outputs_of(b.reg_at(k)).len() implies {
                let p = (#[trigger] b.outputs_of(b.reg_at(k))[j]).0 as int;
                b.is_tracked(p) && b.tracker(p) == k + 1
            } by {
            assert(b.reg_at(k) == a.reg_at(k));
            assert(a.outputs_of(a.reg_at(k))[j] == b.outputs_of(b.reg_at(k))[j]);
        }
        assert forall|p: int|
            0 <= p < b.nvars() && b.is_tracked(p) && #[trigger] b.tracker(p) > 0 implies {
                &&& b.tracker(p) <= b.items().len()
                &&& b.outputs_of(b.reg_at(b.tracker(p) - 1)).contains(Place(p as usize))
            } by {
            assert(a.tracker(p) == b.tracker(p));
            assert(b.reg_at(b.tracker(p) - 1) == a.reg_at(a.tracker(p) - 1));
        }
        assert forall|p: int| 0 <= p < b.nvars() implies (#[trigger] b.is_resolved(p)
            <==> b.is_tracked(p) && b.tracker(p) <= b.processed()) by {
            assert(a.is_resolved(p) == b.is_resolved(p));
        }
        assert forall|p: int| 0 <= p < b.nvars() && #[trigger] b.is_tracked(p) implies b.producer(p)
            != Producer::Unannounced by {
            assert(a.is_tracked(p) == b.is_tracked(p));
            assert(b.producer(p) == a.producer(p));
        }
    }

    /// Everything the invariants read is the same in `a` and `b`; only the
    /// waiting list may differ.
    pub(crate) proof fn lemma_same_tables(a: &Self, b: &Self, pend: Seq<usize>)
        requires
            a.core_wf(),
            b.common.values == a.common.values,
            b.recs() == a.recs(),
            b.items() == a.items(),
            b.processed() == a.processed(),
            b.processed() <= b.size() <= b.items().len(),
            b.guide.chunk_start == b.size(),
            b.guide.parallelism >= 1,
            b.registration_complete ==> b.size() == b.items().len(),
            b.registrar.producers == a.registrar.producers,
            b.mode == a.mode,
            b.record.items@ == a.record.items@,
            b.record.registrations_count == a.record.registrations_count,
            b.guide.chunk_of == a.guide.chunk_of,
            b.guide.parallelism == a.guide.parallelism,
            b.guide.chunk_start == a.guide.chunk_start || b.guide.chunk_start == b.items().len(),
        ensures
            b.core_wf(),
            a.pending_ok(pend) ==> b.pending_ok(pend),
            a.covered(pend) ==> b.covered(pend),
            a.settled(pend) && a.pending_ok(pend) ==> b.settled(pend),
            forall|n: int| 0 <= n < a.recs().len() ==> #[trigger] b.ready(n) == a.ready(n),
    {
        Self::lemma_core_wf_transfer(a, b);
        assert forall|n: int| 0 <= n < a.recs().len() implies #[trigger] b.ready(n) == a.ready(n) by {
            assert(b.inputs_of(n) == a.inputs_of(n));
            if a.ready(n) {
                assert forall|j: int| 0 <= j < b.inputs_of(n).len() implies b.is_tracked(
                    (#[trigger] b.inputs_of(n)[j]).0 as int,
                ) by {
                    assert(a.is_tracked(a.inputs_of(n)[j].0 as int));
                }
            }
            if b.ready(n) {
                assert forall|j: int| 0 <= j < a.inputs_of(n).len() implies a.is_tracked(
                    (#[trigger] a.inputs_of(n)[j]).0 as int,
                ) by {
                    assert(b.is_tracked(b.inputs_of(n)[j].0 as int));
                }
            }
        }
        if a.pending_ok(pend) {
            assert forall|i: int, k: int|
                #![trigger pend[i], b.reg_at(k)]
                0 <= i < pend.len() && 0 <= k < b.items().len() implies pend[i] != b.reg_at(k) by {
                assert(a.items()[k] == b.items()[k]);
                assert(pend[i] != a.reg_at(k));
            }
            assert forall|m: int| 0 <= m < b.recs().len() && !pend.contains(m as usize) implies {
                let t = (#[trigger] b.record.items@[m]).accepted_at as int;
                t < b.items().len() && b.reg_at(t) == m
            } by {
                let t = a.record.items@[m].accepted_at as int;
                assert(a.items()[t] == b.items()[t]);
            }
            assert forall|i: int, j: int|
                0 <= i < pend.len() && 0 <= j < b.outputs_of(pend[i] as int).len() implies {
                    let p = (#[trigger] b.outputs_of(pend[i] as int)[j]).0 as int;
                    b.producer(p) == Producer::Resolver(pend[i] as usize) && !b.is_tracked(p)
                } by {
                assert(a.outputs_of(pend[i] as int)[j] == b.outputs_of(pend[i] as int)[j]);
            }
        }
        if a.covered(pend) {
            assert forall|m: int| 0 <= m < b.recs().len() implies pend.contains(m as usize)
                || #[trigger] b.outputs_tracked(m) by {
                if !pend.contains(m as usize) {
                    assert(a.outputs_tracked(m));
                    assert forall|j: int| 0 <= j < b.outputs_of(m).len() implies b.is_tracked(
                        (#[trigger] b.outputs_of(m)[j]).0 as int,
                    ) by {
                        assert(a.outputs_of(m)[j] == b.outputs_of(m)[j]);
                    }
                }
            }
        }
        if a.settled(pend) && a.pending_ok(pend) && b.mode == SortingMode::Playback {
            assert forall|i: int| 0 <= i < pend.len() implies !(b.ready(#[trigger] pend[i] as int)
                && b.turn_due(pend[i] as int)) by {
                assert(b.ready(pend[i] as int) == a.ready(pend[i] as int));
            }
        }
        if a.settled(pend) && b.mode == SortingMode::Record {
            assert forall|i: int| 0 <= i < pend.len() implies !b.ready(#[trigger] pend[i] as int) by {
                assert(!a.ready(pend[i] as int));
                let j = choose|j: int| 0 <= j < a.inputs_of(pend[i] as int).len() && !a.is_tracked(
                    (#[trigger] a.inputs_of(pend[i] as int)[j]).0 as int);
                assert(a.inputs_of(pend[i] as int)[j] == b.inputs_of(pend[i] as int)[j]);
            }
        }
    }

    /// Admitting registration `n` at position `k` keeps the relational
    /// invariants: `b` is `a` with entry `k` appended and the outputs of `n`
    /// stamped with `k + 1`.
    pub(crate) proof fn lemma_sequence(a: &Self, b: &Self, n: int)
        requires
            a.core_wf(),
            0 <= n < a.recs().len(),
            a.items().len() < a.recs().len(),
            a.ready(n),
            forall|j: int|
                0 <= j < a.outputs_of(n).len() ==> {
                    let p = (#[trigger] a.outputs_of(n)[j]).0 as int;
                    a.producer(p) == Producer::Resolver(n as usize) && !a.is_tracked(p)
                },
            b.common.values.wf(),
            b.nvars() == a.nvars(),
            b.recs() == a.recs(),
            b.registrar.producers@ == a.registrar.producers@,
            b.processed() == a.processed(),
            b.items().len() == a.items().len() + 1,
            forall|k: int| 0 <= k < a.items().len() ==> #[trigger] b.items()[k] == a.items()[k],
            b.items()[a.items().len() as int].value.0 == 2 * n,
            b.guide.parallelism == a.guide.parallelism,
            b.guide.chunk_of@.len() == a.items().len() + 1,
            forall|k: int|
                0 <= k < a.items().len() ==> #[trigger] b.guide.chunk_of@[k] == a.guide.chunk_of@[k],
            b.guide.chunk_of@[a.items().len() as int] == a.guide.chunk_start
                || b.guide.chunk_of@[a.items().len() as int] == a.items().len(),
            b.guide.chunk_start == b.guide.chunk_of@[a.items().len() as int]
                || b.guide.chunk_start == b.items().len(),
            b.items().len() - b.guide.chunk_start < b.guide.parallelism,
            forall|j: int|
                0 <= j < a.inputs_of(n).len() ==> a.tracker((#[trigger] a.inputs_of(n)[j]).0 as int)
                    <= b.guide.chunk_of@[a.items().len() as int],
            forall|k: int| 0 <= k < a.items().len() ==> #[trigger] a.reg_at(k) != n,
            n < b.record.items@.len(),
            b.record.items@.len() == a.record.items@.len(),
            b.record.items@[n].accepted_at == a.items().len(),
            forall|m: int|
                0 <= m < a.record.items@.len() && m != n ==> #[trigger] b.record.items@[m]
                    == a.record.items@[m],
            b.processed() <= b.size() <= b.items().len(),
            b.guide.chunk_start == b.size(),
            b.guide.parallelism >= 1,
            !b.registration_complete,
            b.mode == SortingMode::Record ==> b.record.items@.len() == b.recs().len()
                && b.record.registrations_count == b.recs().len(),
            forall|p: int|
                0 <= p < a.nvars() ==> (#[trigger] b.common.values.variables@[p]) == if a.outputs_of(
                    n,
                ).contains(Place(p as usize)) {
                    (a.val(p), Metadata::new_spec(OrderIx((a.items().len() + 1) as u32)))
                } else {
                    a.common.values.variables@[p]
                },
        ensures
            b.core_wf(),
    {
        let k = a.items().len() as int;
        Metadata::lemma_new_spec_flags(OrderIx((k + 1) as u32));
        assert(b.reg_at(k) == n);
        let c = b.guide.chunk_of@[k];
        assert forall|p: int| 0 <= p < b.nvars() implies (#[trigger] b.producer(p)
            == Producer::Assigned <==> b.is_tracked(p) && b.tracker(p) == 0) by {
            assert(a.producer(p) == Producer::Assigned <==> a.is_tracked(p) && a.tracker(p) == 0);
            if a.outputs_of(n).contains(Place(p as usize)) {
                let j = choose|j: int| 0 <= j < a.outputs_of(n).len() && a.outputs_of(n)[j] == Place(p as usize);
                assert(a.outputs_of(n)[j].0 == p);
                assert(b.common.values.variables@[p] == (a.val(p), Metadata::new_spec(OrderIx((k + 1) as u32))));
            } else {
                assert(b.common.values.variables@[p] == a.common.values.variables@[p]);
            }
        }
        assert forall|i: int| 0 <= i < b.guide.chunk_of@.len() implies 0 <= #[trigger] b.guide.chunk_of@[i]
            <= i && i - b.guide.chunk_of@[i] < b.guide.parallelism && (i >= b.guide.chunk_start
            ==> b.guide.chunk_of@[i] == b.guide.chunk_start) by {
            if i < k {
                assert(b.guide.chunk_of@[i] == a.guide.chunk_of@[i]);
            }
        }
        assert forall|i: int| 0 <= i < b.items().len() implies #[trigger] b.reg_at(i)
            < b.record.items@.len() && b.record.items@[b.reg_at(i)].accepted_at == i by {
            if i < k {
                assert(a.items()[i] == b.items()[i]);
                assert(a.reg_at(i) != n);
                assert(a.reg_at(i) < a.record.items@.len());
            }
        }
        // an output of `n` is untracked in `a`; every key an entry of `a` touches is tracked
        assert forall|p: int|
            0 <= p < a.nvars() && a.is_tracked(p) implies !a.outputs_of(n).contains(
                Place(p as usize),
            ) && #[trigger] b.md(p) == a.md(p) by {
            if a.outputs_of(n).contains(Place(p as usize)) {
                let j = choose|j: int| 0 <= j < a.outputs_of(n).len() && a.outputs_of(n)[j] == Place(p as usize);
                assert(a.outputs_of(n)[j].0 == p);
            }
            assert(b.common.values.variables@[p] == a.common.values.variables@[p]);
        }
        assert forall|p: int|
            0 <= p < a.nvars() && a.outputs_of(n).contains(Place(p as usize)) implies #[trigger] b.md(p)
            == Metadata::new_spec(OrderIx((k + 1) as u32)) by {
            assert(b.common.values.variables@[p] == (a.val(p), Metadata::new_spec(OrderIx((k + 1) as u32))));
        }
        assert forall|p: int|
            0 <= p < a.nvars() && !a.outputs_of(n).contains(Place(p as usize)) implies #[trigger] b.md(p)
            == a.md(p) by {
            assert(b.common.values.variables@[p] == a.common.values.variables@[p]);
        }
        assert forall|m: int| 0 <= m < b.recs().len() implies places_below(
            #[trigger] b.inputs_of(m),
            b.nvars(),
        ) && places_below(b.outputs_of(m), b.nvars()) && b.outputs_of(m).no_duplicates() by {
            assert(a.inputs_of(m) == b.inputs_of(m));
        }
        assert forall|i: int| 0 <= i < b.items().len() implies (#[trigger] b.items()[i]).value.0 % 2
            == 0 && b.items()[i].value.0 / 2 < b.recs().len() by {
            if i < k {
                assert(a.items()[i] == b.items()[i]);
            }
        }
        assert forall|i: int, j: int|
            0 <= i < b.items().len() && 0 <= j < b.inputs_of(b.reg_at(i)).len() implies {
                let p = (#[trigger] b.inputs_of(b.reg_at(i))[j]).0 as int;
                b.is_tracked(p) && b.tracker(p) <= i
            } by {
            let p = b.inputs_of(b.reg_at(i))[j].0 as int;
            if i < k {
                assert(a.items()[i] == b.items()[i]);
                assert(a.inputs_of(a.reg_at(i))[j] == b.inputs_of(b.reg_at(i))[j]);
                assert(b.md(p) == a.md(p));
            } else {
                assert(a.inputs_of(n)[j] == b.inputs_of(b.reg_at(i))[j]);
                assert(a.is_tracked(p));
                assert(b.md(p) == a.md(p));
                if a.tracker(p) > 0 {
                    assert(a.tracker(p) <= a.items().len());
                }
            }
        }
        assert forall|i: int, j: int|
            0 <= i < b.guide.chunk_of@.len() && 0 <= j < b.inputs_of(b.reg_at(i)).len() implies b.tracker(
                (#[trigger] b.inputs_of(b.reg_at(i))[j]).0 as int,
            ) <= b.guide.chunk_of@[i] by {
            let p = b.inputs_of(b.reg_at(i))[j].0 as int;
            if i < k {
                assert(a.items()[i] == b.items()[i]);
                assert(a.inputs_of(a.reg_at(i))[j] == b.inputs_of(b.reg_at(i))[j]);
                assert(b.guide.chunk_of@[i] == a.guide.chunk_of@[i]);
                a.lemma_record_places(a.reg_at(i));
                assert(b.md(p) == a.md(p));
            } else {
                assert(a.inputs_of(n)[j] == b.inputs_of(b.reg_at(i))[j]);
                a.lemma_record_places(n);
                assert(a.is_tracked(p));
                assert(b.md(p) == a.md(p));
            }
        }
        assert forall|i: int, j: int|
            0 <= i < b.items().len() && 0 <= j < b.outputs_of(b.reg_at(i)).len() implies {
                let p = (#[trigger] b.outputs_of(b.reg_at(i))[j]).0 as int;
                b.is_tracked(p) && b.tracker(p) == i + 1
            } by {
            let p = b.outputs_of(b.reg_at(i))[j].0 as int;
            let r = b.reg_at(i);
            if i < k {
                assert(a.items()[i] == b.items()[i]);
            }
            assert(0 <= r < a.recs().len());
            assert(a.inv_shapes());
            assert(forall|m: int| 0 <= m < a.recs().len() ==> places_below(#[trigger] a.inputs_of(m), a.nvars()));
            assert(places_below(a.inputs_of(r), a.nvars()));
            assert(places_below(a.inputs_of(r), a.nvars()) && places_below(a.outputs_of(r), a.nvars()));
            assert(0 <= p < a.nvars());
            if i < k {
                assert(a.items()[i] == b.items()[i]);
                assert(a.outputs_of(a.reg_at(i))[j] == b.outputs_of(b.reg_at(i))[j]);
                assert(a.is_tracked(p));
                assert(b.md(p) == a.md(p));
            } else {
                assert(a.outputs_of(n)[j] == b.outputs_of(b.reg_at(i))[j]);
                assert(a.outputs_of(n)[j].0 == p);
                assert(a.outputs_of(n).contains(Place(p as usize)));
                assert(b.md(p) == Metadata::new_spec(OrderIx((k + 1) as u32)));
            }
        }
        assert forall|p: int|
            0 <= p < b.nvars() && b.is_tracked(p) && #[trigger] b.tracker(p) > 0 implies {
                &&& b.tracker(p) <= b.items().len()
                &&& b.outputs_of(b.reg_at(b.tracker(p) - 1)).contains(Place(p as usize))
            } by {
            if a.outputs_of(n).contains(Place(p as usize)) {
                assert(b.md(p) == Metadata::new_spec(OrderIx((k + 1) as u32)));
                assert(b.tracker(p) == k + 1);
            } else {
                assert(b.md(p) == a.md(p));
                let t = a.tracker(p) - 1;
                assert(a.items()[t] == b.items()[t]);
            }
        }
        assert forall|p: int| 0 <= p < b.nvars() implies (#[trigger] b.is_resolved(p)
            <==> b.is_tracked(p) && b.tracker(p) <= b.processed()) by {
            if a.outputs_of(n).contains(Place(p as usize)) {
                assert(b.md(p) == Metadata::new_spec(OrderIx((k + 1) as u32)));
            } else {
                assert(b.md(p) == a.md(p));
                assert(a.is_resolved(p) <==> a.is_tracked(p) && a.tracker(p) <= a.processed());
            }
        }
        assert forall|p: int| 0 <= p < b.nvars() && #[trigger] b.is_tracked(p) implies b.producer(p)
            != Producer::Unannounced by {
            if a.outputs_of(n).contains(Place(p as usize)) {
                let j = choose|j: int| 0 <= j < a.outputs_of(n).len() && a.outputs_of(n)[j] == Place(p as usize);
                assert(a.outputs_of(n)[j].0 == p);
            } else {
                assert(b.md(p) == a.md(p));
                assert(a.is_tracked(p));
            }
        }
    }

    /// `b` is `a` after sequencing the waiting registration `pend[i]`: the
    /// others keep waiting, and every registration stays accounted for.
    pub(crate) proof fn lemma_pending_after_sequence(a: &Self, b: &Self, pend: Seq<usize>, i: int)
        requires
            a.core_wf(),
            a.pending_ok(pend),
            a.covered(pend),
            0 <= i < pend.len(),
            b.nvars() == a.nvars(),
            b.recs() == a.recs(),
            b.registrar.producers@ == a.registrar.producers@,
            b.items().len() == a.items().len() + 1,
            forall|k: int| 0 <= k < a.items().len() ==> #[trigger] b.items()[k] == a.items()[k],
            b.reg_at(a.items().len() as int) == pend[i],
            b.mode == a.mode,
            b.record.items@.len() == a.record.items@.len(),
            b.record.items@[pend[i] as int].accepted_at == a.items().len(),
            forall|m: int|
                0 <= m < a.record.items@.len() && m != pend[i] ==> #[trigger] b.record.items@[m]
                    == a.record.items@[m],
            forall|p: int|
                0 <= p < a.nvars() ==> (#[trigger] b.common.values.variables@[p]) == if a.outputs_of(
                    pend[i] as int,
                ).contains(Place(p as usize)) {
                    (
                        a.val(p),
                        Metadata::new_spec(OrderIx((a.items().len() + 1) as u32)),
                    )
                } else {
                    a.common.values.variables@[p]
                },
        ensures
            b.pending_ok(pend.remove(i)),
            b.covered(pend.remove(i)),
            a.tracking_grows(b),
            forall|p: int|
                0 <= p < a.nvars() && a.is_tracked(p) ==> #[trigger] b.common.values.variables@[p]
                    == a.common.values.variables@[p],
    {
        let n = pend[i] as int;
        let rest = pend.remove(i);
        Metadata::lemma_new_spec_flags(OrderIx((a.items().len() + 1) as u32));
        a.lemma_record_places(n);
        assert forall|p: int|
            0 <= p < a.nvars() && a.outputs_of(n).contains(Place(p as usize)) implies a.producer(p)
            == Producer::Resolver(n as usize) && !a.is_tracked(p) && #[trigger] b.is_tracked(p) by {
            let j = choose|j: int| 0 <= j < a.outputs_of(n).len() && a.outputs_of(n)[j] == Place(p as usize);
            assert(a.outputs_of(pend[i] as int)[j].0 == p);
            assert(b.common.values.variables@[p] == (a.val(p), Metadata::new_spec(OrderIx((a.items().len() + 1) as u32))));
        }
        assert forall|p: int|
            0 <= p < a.nvars() && a.is_tracked(p) implies #[trigger] b.common.values.variables@[p]
            == a.common.values.variables@[p] by {
            if a.outputs_of(n).contains(Place(p as usize)) {
                assert(!a.is_tracked(p));
            }
        }
        assert forall|p: int| 0 <= p < a.nvars() && #[trigger] a.is_tracked(p) implies b.is_tracked(p) by {
            assert(b.common.values.variables@[p] == a.common.values.variables@[p]);
        }
        assert(rest.no_duplicates()) by {
            assert forall|x: int, y: int| 0 <= x < rest.len() && 0 <= y < rest.len() && x != y implies rest[x] != rest[y] by {
                let x2 = if x < i { x } else { x + 1 };
                let y2 = if y < i { y } else { y + 1 };
                assert(rest[x] == pend[x2] && rest[y] == pend[y2]);
            }
        }
        assert forall|x: int, j: int|
            0 <= x < rest.len() && 0 <= j < b.outputs_of(rest[x] as int).len() implies {
                let p = (#[trigger] b.outputs_of(rest[x] as int)[j]).0 as int;
                b.producer(p) == Producer::Resolver(rest[x] as usize) && !b.is_tracked(p)
            } by {
            let x2 = if x < i { x } else { x + 1 };
            assert(rest[x] == pend[x2]);
            assert(pend[x2] != pend[i]);
            let m = pend[x2] as int;
            let p = a.outputs_of(m)[j].0 as int;
            assert(a.outputs_of(pend[x2] as int)[j] == a.outputs_of(m)[j]);
            a.lemma_record_places(m);
            assert(0 <= p < a.nvars());
            assert(a.producer(p) == Producer::Resolver(m as usize));
            if a.outputs_of(n).contains(Place(p as usize)) {
                assert(a.producer(p) == Producer::Resolver(n as usize));
            }
            assert(b.common.values.variables@[p] == a.common.values.variables@[p]);
        }
        assert forall|x: int, k: int|
            #![trigger rest[x], b.reg_at(k)]
            0 <= x < rest.len() && 0 <= k < b.items().len() implies rest[x] != b.reg_at(k) by {
            let x2 = if x < i { x } else { x + 1 };
            assert(rest[x] == pend[x2]);
            if k < a.items().len() {
                assert(b.items()[k] == a.items()[k]);
                assert(pend[x2] != a.reg_at(k));
            } else {
                assert(pend[x2] != pend[i]);
            }
        }
        assert forall|m: int| 0 <= m < b.recs().len() && !rest.contains(m as usize) implies {
            let t = (#[trigger] b.record.items@[m]).accepted_at as int;
            t < b.items().len() && b.reg_at(t) == m
        } by {
            if m != n {
                if pend.contains(m as usize) {
                    let x = choose|x: int| 0 <= x < pend.len() && pend[x] == m as usize;
                    assert(x != i);
                    let x3 = if x < i { x } else { x - 1 };
                    assert(rest[x3] == m as usize);
                }
                let t = a.record.items@[m].accepted_at as int;
                assert(b.record.items@[m] == a.record.items@[m]);
                assert(b.items()[t] == a.items()[t]);
            }
        }
        assert forall|x: int| 0 <= x < rest.len() implies (#[trigger] rest[x]) < b.recs().len() by {
            let x2 = if x < i { x } else { x + 1 };
            assert(rest[x] == pend[x2]);
        }
        assert(b.outputs_tracked(n)) by {
            assert forall|j: int| 0 <= j < b.outputs_of(n).len() implies b.is_tracked(
                (#[trigger] b.outputs_of(n)[j]).0 as int,
            ) by {
                let p = a.outputs_of(n)[j].0 as int;
                assert(a.outputs_of(n).contains(Place(p as usize)));
            }
        }
        assert forall|m: int| 0 <= m < b.recs().len() implies rest.contains(m as usize)
            || #[trigger] b.outputs_tracked(m) by {
            if m != n {
                if pend.contains(m as usize) {
                    let x = choose|x: int| 0 <= x < pend.len() && pend[x] == m as usize;
                    assert(x != i);
                    let x3 = if x < i { x } else { x - 1 };
                    assert(rest[x3] == m as usize);
                } else {
                    assert(a.outputs_tracked(m));
                    assert forall|j: int| 0 <= j < b.outputs_of(m).len() implies b.is_tracked(
                        (#[trigger] b.outputs_of(m)[j]).0 as int,
                    ) by {
                        a.lemma_record_places(m);
                        let p = a.outputs_of(m)[j].0 as int;
                        assert(a.is_tracked(p));
                    }
                }
            }
        }
    }

    /// `b` is `a` with key `q`, which had no producer, assigned.
    pub(crate) proof fn lemma_assign(a: &Self, b: &Self, q: int, v: V)
        requires
            a.wf(),
            0 <= q < a.nvars(),
            a.producer(q) == Producer::Unannounced,
            b.common.values.wf(),
            b.common.values.variables@ == a.common.values.variables@.update(
                q,
                (v, Metadata::new_resolved_spec()),
            ),
            b.registrar.producers@ == a.registrar.producers@.update(q, Producer::Assigned),
            b.recs() == a.recs(),
            b.common.exec_order == a.common.exec_order,
            b.processed() == a.processed(),
            b.guide == a.guide,
            b.mode == a.mode,
            !b.registration_complete,
            b.record.items@ == a.record.items@,
            b.record.registrations_count == a.record.registrations_count,
        ensures
            b.core_wf(),
            b.pending_ok(a.pending()),
            b.covered(a.pending()),
            a.tracking_grows(b),
    {
        Metadata::lemma_new_spec_flags(OrderIx(0));
        assert(!a.is_tracked(q));
        assert forall|p: int| 0 <= p < a.nvars() && p != q implies #[trigger] b.md(p) == a.md(p)
            && b.producer(p) == a.producer(p) by {}
        assert forall|n: int| 0 <= n < b.recs().len() implies places_below(
            #[trigger] b.inputs_of(n),
            b.nvars(),
        ) && places_below(b.outputs_of(n), b.nvars()) && b.outputs_of(n).no_duplicates() by {
            a.lemma_record_places(n);
        }
        assert forall|k: int| 0 <= k < b.items().len() implies (#[trigger] b.items()[k]).value.0 % 2
            == 0 && b.items()[k].value.0 / 2 < b.recs().len() by {
            assert(a.items()[k] == b.items()[k]);
        }
        assert forall|k: int, j: int|
            0 <= k < b.items().len() && 0 <= j < b.inputs_of(b.reg_at(k)).len() implies {
                let p = (#[trigger] b.inputs_of(b.reg_at(k))[j]).0 as int;
                b.is_tracked(p) && b.tracker(p) <= k
            } by {
            assert(a.inputs_of(a.reg_at(k))[j] == b.inputs_of(b.reg_at(k))[j]);
            a.lemma_record_places(a.reg_at(k));
        }
        assert forall|k: int, j: int|
            0 <= k < b.guide.chunk_of@.len() && 0 <= j < b.inputs_of(b.reg_at(k)).len() implies b.tracker(
                (#[trigger] b.inputs_of(b.reg_at(k))[j]).0 as int,
            ) <= b.guide.chunk_of@[k] by {
            assert(a.inputs_of(a.reg_at(k))[j] == b.inputs_of(b.reg_at(k))[j]);
            a.lemma_record_places(a.reg_at(k));
            let p = a.inputs_of(a.reg_at(k))[j].0 as int;
            assert(a.is_tracked(p));
        }
        assert forall|k: int, j: int|
            0 <= k < b.items().len() && 0 <= j < b.outputs_of(b.reg_at(k)).len() implies {
                let p = (#[trigger] b.outputs_of(b.reg_at(k))[j]).0 as int;
                b.is_tracked(p) && b.tracker(p) == k + 1
            } by {
            assert(a.outputs_of(a.reg_at(k))[j] == b.outputs_of(b.reg_at(k))[j]);
            a.lemma_record_places(a.reg_at(k));
        }
        assert forall|p: int|
            0 <= p < b.nvars() && b.is_tracked(p) && #[trigger] b.tracker(p) > 0 implies {
                &&& b.tracker(p) <= b.items().len()
                &&& b.outputs_of(b.reg_at(b.tracker(p) - 1)).contains(Place(p as usize))
            } by {
            assert(p != q);
            assert(a.tracker(p) == b.tracker(p));
        }
        assert forall|p: int| 0 <= p < b.nvars() implies (#[trigger] b.is_resolved(p)
            <==> b.is_tracked(p) && b.tracker(p) <= b.processed()) by {
            if p != q {
                assert(a.is_resolved(p) == b.is_resolved(p));
            }
        }
        assert forall|p: int| 0 <= p < b.nvars() && #[trigger] b.is_tracked(p) implies b.producer(p)
            != Producer::Unannounced by {
            if p != q {
                assert(a.is_tracked(p));
            }
        }
        let pend = a.pending();
        assert forall|k: int| 0 <= k < b.items().len() implies #[trigger] b.reg_at(k)
            < b.record.items@.len() && b.record.items@[b.reg_at(k)].accepted_at == k by {
            assert(a.reg_at(k) < a.record.items@.len());
        }
        assert forall|i: int, k: int|
            #![trigger pend[i], b.reg_at(k)]
            0 <= i < pend.len() && 0 <= k < b.items().len() implies pend[i] != b.reg_at(k) by {
            assert(pend[i] != a.reg_at(k));
        }
        assert forall|m: int| 0 <= m < b.recs().len() && !pend.contains(m as usize) implies {
            let t = (#[trigger] b.record.items@[m]).accepted_at as int;
            t < b.items().len() && b.reg_at(t) == m
        } by {
            let t = a.record.items@[m].accepted_at as int;
            assert(a.reg_at(t) == m);
        }
        assert forall|i: int, j: int|
            0 <= i < pend.len() && 0 <= j < b.outputs_of(pend[i] as int).len() implies {
                let p = (#[trigger] b.outputs_of(pend[i] as int)[j]).0 as int;
                b.producer(p) == Producer::Resolver(pend[i] as usize) && !b.is_tracked(p)
            } by {
            assert(a.outputs_of(pend[i] as int)[j] == b.outputs_of(pend[i] as int)[j]);
            a.lemma_record_places(pend[i] as int);
        }
        assert forall|m: int| 0 <= m < b.recs().len() implies pend.contains(m as usize)
            || #[trigger] b.outputs_tracked(m) by {
            if !pend.contains(m as usize) {
                assert(a.outputs_tracked(m));
                a.lemma_record_places(m);
                assert forall|j: int| 0 <= j < b.outputs_of(m).len() implies b.is_tracked(
                    (#[trigger] b.outputs_of(m)[j]).0 as int,
                ) by {
                    assert(a.is_tracked(a.outputs_of(m)[j].0 as int));
                }
            }
        }
        assert forall|p: int| 0 <= p < a.nvars() && #[trigger] a.is_tracked(p) implies b.is_tracked(p) by {
            assert(p != q);
        }
    }

    /// `b` is `a` with registration `n` appended: its outputs, which had no
    /// producer, now name it, and it waits.
    pub(crate) proof fn lemma_register(a: &Self, b: &Self, ins: Seq<Place>, outs: Seq<Place>)
        requires
            a.wf(),
            a.can_register(ins, outs),
            b.common.values == a.common.values,
            b.recs().len() == a.recs().len() + 1,
            forall|m: int| 0 <= m < a.recs().len() ==> #[trigger] b.recs()[m] == a.recs()[m],
            b.inputs_of(a.recs().len() as int) == ins,
            b.outputs_of(a.recs().len() as int) == outs,
            b.registrar.producers@.len() == a.registrar.producers@.len(),
            forall|p: int|
                0 <= p < a.nvars() ==> #[trigger] b.producer(p) == if outs.contains(
                    Place(p as usize),
                ) {
                    Producer::Resolver(a.recs().len() as usize)
                } else {
                    a.producer(p)
                },
            b.items() == a.items(),
            b.size() == a.size(),
            b.processed() == a.processed(),
            b.guide == a.guide,
            b.mode == a.mode,
            !b.registration_complete,
            b.mode == SortingMode::Record ==> b.record.items@.len() == b.recs().len()
                && b.record.registrations_count == b.recs().len(),
            a.record.items@.len() <= b.record.items@.len(),
            forall|m: int|
                0 <= m < a.record.items@.len() ==> #[trigger] b.record.items@[m]
                    == a.record.items@[m],
            b.pending() == a.pending().push(a.recs().len() as usize),
        ensures
            b.core_wf(),
            b.pending_ok(b.pending()),
            b.covered(b.pending()),
    {
        let n = a.recs().len() as int;
        assert forall|p: int| 0 <= p < a.nvars() && outs.contains(Place(p as usize)) implies !a.is_tracked(p)
            && a.producer(p) == Producer::Unannounced by {
            let j = choose|j: int| 0 <= j < outs.len() && outs[j] == Place(p as usize);
            assert(outs[j].0 == p);
        }
        assert forall|p: int|
            0 <= p < a.nvars() && a.is_tracked(p) implies #[trigger] b.producer(p) == a.producer(p) by {
            if outs.contains(Place(p as usize)) {
                assert(!a.is_tracked(p));
            }
        }
        Self::lemma_core_wf_transfer(a, b);
        assert forall|m: int| 0 <= m < b.recs().len() && m != n implies #[trigger] b.outputs_of(m) == a.outputs_of(m) by {
            assert(b.recs()[m] == a.recs()[m]);
        }
        let pend = b.pending();
        assert forall|i: int, k: int|
            #![trigger pend[i], b.reg_at(k)]
            0 <= i < pend.len() && 0 <= k < b.items().len() implies pend[i] != b.reg_at(k) by {
            assert(b.items()[k] == a.items()[k]);
            if i < a.pending().len() {
                assert(pend[i] == a.pending()[i]);
                assert(a.pending()[i] != a.reg_at(k));
            } else {
                assert(a.items()[k].value.0 / 2 < a.recs().len());
            }
        }
        assert forall|m: int| 0 <= m < b.recs().len() && !pend.contains(m as usize) implies {
            let t = (#[trigger] b.record.items@[m]).accepted_at as int;
            t < b.items().len() && b.reg_at(t) == m
        } by {
            if m == n {
                assert(pend[pend.len() - 1] == m as usize);
            } else {
                if a.pending().contains(m as usize) {
                    let x = choose|x: int| 0 <= x < a.pending().len() && a.pending()[x] == m as usize;
                    assert(pend[x] == m as usize);
                }
                assert(b.record.items@[m] == a.record.items@[m]);
                let t = a.record.items@[m].accepted_at as int;
                assert(a.reg_at(t) == m);
            }
        }
        assert forall|x: int, y: int| 0 <= x < pend.len() && 0 <= y < pend.len() && x != y implies pend[x] != pend[y] by {
            if x < a.pending().len() && y < a.pending().len() {
                assert(pend[x] == a.pending()[x] && pend[y] == a.pending()[y]);
            } else if x < a.pending().len() {
                assert(pend[x] == a.pending()[x]);
                assert(a.pending()[x] < a.recs().len());
            } else if y < a.pending().len() {
                assert(pend[y] == a.pending()[y]);
                assert(a.pending()[y] < a.recs().len());
            }
        }
        assert forall|i: int| 0 <= i < pend.len() implies (#[trigger] pend[i]) < b.recs().len() by {
            if i < a.pending().len() {
                assert(pend[i] == a.pending()[i]);
            }
        }
        assert forall|i: int, j: int|
            0 <= i < pend.len() && 0 <= j < b.outputs_of(pend[i] as int).len() implies {
                let p = (#[trigger] b.outputs_of(pend[i] as int)[j]).0 as int;
                b.producer(p) == Producer::Resolver(pend[i] as usize) && !b.is_tracked(p)
            } by {
            let p = b.outputs_of(pend[i] as int)[j].0 as int;
            if i < a.pending().len() {
                let m = a.pending()[i] as int;
                assert(pend[i] == a.pending()[i]);
                assert(b.outputs_of(m) == a.outputs_of(m));
                assert(a.outputs_of(a.pending()[i] as int)[j] == a.outputs_of(m)[j]);
                a.lemma_record_places(m);
                assert(a.producer(p) == Producer::Resolver(m as usize));
                if outs.contains(Place(p as usize)) {
                    assert(a.producer(p) == Producer::Unannounced);
                }
                assert(b.md(p) == a.md(p));
            } else {
                assert(pend[i] == n);
                assert(outs[j].0 == p);
                assert(outs.contains(Place(p as usize)));
                assert(b.md(p) == a.md(p));
            }
        }
        assert forall|m: int| 0 <= m < b.recs().len() implies pend.contains(m as usize)
            || #[trigger] b.outputs_tracked(m) by {
            if m == n {
                assert(pend[pend.len() - 1] == m as usize);
            } else if a.pending().contains(m as usize) {
                let x = choose|x: int| 0 <= x < a.pending().len() && a.pending()[x] == m as usize;
                assert(pend[x] == m as usize);
            } else {
                assert(a.outputs_tracked(m));
                assert forall|j: int| 0 <= j < b.outputs_of(m).len() implies b.is_tracked(
                    (#[trigger] b.outputs_of(m)[j]).0 as int,
                ) by {
                    assert(a.is_tracked(a.outputs_of(m)[j].0 as int));
                }
            }
        }
    }

    /// `b` is `a` after the window ran entry `a.processed()`: its outputs
    /// are resolved, nothing else changed.
    pub(crate) proof fn lemma_complete(a: &Self, b: &Self)
        requires
            a.wf(),
            a.processed() < a.size(),
            b.common.values.wf(),
            b.nvars() == a.nvars(),
            b.recs() == a.recs(),
            b.items() == a.items(),
            b.size() == a.size(),
            b.guide == a.guide,
            b.registrar == a.registrar,
            b.mode == a.mode,
            b.record == a.record,
            b.registration_complete == a.registration_complete,
            b.processed() == a.processed() + 1,
            forall|p: int|
                0 <= p < a.nvars() && a.outputs_of(a.reg_at(a.processed() as int)).contains(
                    Place(p as usize),
                ) ==> (#[trigger] b.md(p)).tracked_flag() == a.md(p).tracked_flag() && b.md(p).tracker
                    == a.md(p).tracker && b.md(p).resolved_flag(),
            forall|p: int|
                0 <= p < a.nvars() && !a.outputs_of(a.reg_at(a.processed() as int)).contains(
                    Place(p as usize),
                ) ==> #[trigger] b.common.values.variables@[p] == a.common.values.variables@[p],
        ensures
            b.wf(),
    {
        let k = a.processed() as int;
        let outs = a.outputs_of(a.reg_at(k));
        assert forall|p: int| 0 <= p < a.nvars() implies #[trigger] b.md(p).tracked_flag() == a.md(p).tracked_flag()
            && b.md(p).tracker == a.md(p).tracker by {
            if !outs.contains(Place(p as usize)) {
                assert(b.common.values.variables@[p] == a.common.values.variables@[p]);
            }
        }
        assert forall|p: int| 0 <= p < a.nvars() && !outs.contains(Place(p as usize)) implies #[trigger] b.md(p)
            == a.md(p) by {
            assert(b.common.values.variables@[p] == a.common.values.variables@[p]);
        }
        assert forall|n: int| 0 <= n < b.recs().len() implies places_below(
            #[trigger] b.inputs_of(n),
            b.nvars(),
        ) && places_below(b.outputs_of(n), b.nvars()) && b.outputs_of(n).no_duplicates() by {
            a.lemma_record_places(n);
        }
        assert forall|i: int| 0 <= i < b.items().len() implies (#[trigger] b.items()[i]).value.0 % 2
            == 0 && b.items()[i].value.0 / 2 < b.recs().len() by {
            assert(a.items()[i] == b.items()[i]);
        }
        assert forall|i: int, j: int|
            0 <= i < b.items().len() && 0 <= j < b.inputs_of(b.reg_at(i)).len() implies {
                let p = (#[trigger] b.inputs_of(b.reg_at(i))[j]).0 as int;
                b.is_tracked(p) && b.tracker(p) <= i
            } by {
            assert(a.inputs_of(a.reg_at(i))[j] == b.inputs_of(b.reg_at(i))[j]);
            a.lemma_record_places(a.reg_at(i));
            assert(b.md(a.inputs_of(a.reg_at(i))[j].0 as int).tracked_flag() == a.md(a.inputs_of(a.reg_at(i))[j].0 as int).tracked_flag());
        }
        assert forall|i: int, j: int|
            0 <= i < b.guide.chunk_of@.len() && 0 <= j < b.inputs_of(b.reg_at(i)).len() implies b.tracker(
                (#[trigger] b.inputs_of(b.reg_at(i))[j]).0 as int,
            ) <= b.guide.chunk_of@[i] by {
            assert(a.inputs_of(a.reg_at(i))[j] == b.inputs_of(b.reg_at(i))[j]);
            a.lemma_record_places(a.reg_at(i));
        }
        assert forall|i: int, j: int|
            0 <= i < b.items().len() && 0 <= j < b.outputs_of(b.reg_at(i)).len() implies {
                let p = (#[trigger] b.outputs_of(b.reg_at(i))[j]).0 as int;
                b.is_tracked(p) && b.tracker(p) == i + 1
            } by {
            assert(a.outputs_of(a.reg_at(i))[j] == b.outputs_of(b.reg_at(i))[j]);
            a.lemma_record_places(a.reg_at(i));
            assert(b.md(a.outputs_of(a.reg_at(i))[j].0 as int).tracked_flag() == a.md(a.outputs_of(a.reg_at(i))[j].0 as int).tracked_flag());
        }
        assert forall|p: int|
            0 <= p < b.nvars() && b.is_tracked(p) && #[trigger] b.tracker(p) > 0 implies {
                &&& b.tracker(p) <= b.items().len()
                &&& b.outputs_of(b.reg_at(b.tracker(p) - 1)).contains(Place(p as usize))
            } by {
            assert(b.md(p).tracked_flag() == a.md(p).tracked_flag());
            assert(a.tracker(p) == b.tracker(p));
        }
        assert forall|p: int| 0 <= p < b.nvars() implies (#[trigger] b.is_resolved(p)
            <==> b.is_tracked(p) && b.tracker(p) <= b.processed()) by {
            assert(b.md(p).tracked_flag() == a.md(p).tracked_flag());
            if outs.contains(Place(p as usize)) {
                let j = choose|j: int| 0 <= j < outs.len() && outs[j] == Place(p as usize);
                assert(outs[j].0 == p);
                assert(a.is_tracked(p) && a.tracker(p) == k + 1);
            } else {
                assert(b.md(p) == a.md(p));
                assert(a.is_resolved(p) <==> a.is_tracked(p) && a.tracker(p) <= a.processed());
                if a.is_tracked(p) && a.tracker(p) == k + 1 {
                    assert(a.tracker(p) > 0);
                    assert(a.outputs_of(a.reg_at(a.tracker(p) - 1)).contains(Place(p as usize)));
                }
            }
        }
        assert forall|p: int| 0 <= p < b.nvars() && #[trigger] b.is_tracked(p) implies b.producer(p)
            != Producer::Unannounced by {
            assert(b.md(p).tracked_flag() == a.md(p).tracked_flag());
            assert(a.is_tracked(p));
        }
        assert forall|p: int| 0 <= p < b.nvars() implies (#[trigger] b.producer(p)
            == Producer::Assigned <==> b.is_tracked(p) && b.tracker(p) == 0) by {
            assert(a.producer(p) == Producer::Assigned <==> a.is_tracked(p) && a.tracker(p) == 0);
            assert(b.md(p).tracked_flag() == a.md(p).tracked_flag());
        }
        let pend = a.pending();
        assert forall|i: int| 0 <= i < b.items().len() implies #[trigger] b.reg_at(i)
            < b.record.items@.len() && b.record.items@[b.reg_at(i)].accepted_at == i by {
            assert(a.reg_at(i) < a.record.items@.len());
        }
        assert forall|i: int, k: int|
            #![trigger pend[i], b.reg_at(k)]
            0 <= i < pend.len() && 0 <= k < b.items().len() implies pend[i] != b.reg_at(k) by {
            assert(pend[i] != a.reg_at(k));
        }
        assert forall|m: int| 0 <= m < b.recs().len() && !pend.contains(m as usize) implies {
            let t = (#[trigger] b.record.items@[m]).accepted_at as int;
            t < b.items().len() && b.reg_at(t) == m
        } by {
            let t = a.record.items@[m].accepted_at as int;
            assert(a.reg_at(t) == m);
        }
        assert forall|i: int, j: int|
            0 <= i < pend.len() && 0 <= j < b.outputs_of(pend[i] as int).len() implies {
                let p = (#[trigger] b.outputs_of(pend[i] as int)[j]).0 as int;
                b.producer(p) == Producer::Resolver(pend[i] as usize) && !b.is_tracked(p)
            } by {
            assert(a.outputs_of(pend[i] as int)[j] == b.outputs_of(pend[i] as int)[j]);
            a.lemma_record_places(pend[i] as int);
            assert(b.md(a.outputs_of(pend[i] as int)[j].0 as int).tracked_flag() == a.md(a.outputs_of(pend[i] as int)[j].0 as int).tracked_flag());
        }
        assert forall|m: int| 0 <= m < b.recs().len() implies pend.contains(m as usize)
            || #[trigger] b.outputs_tracked(m) by {
            if !pend.contains(m as usize) {
                assert(a.outputs_tracked(m));
                a.lemma_record_places(m);
                assert forall|j: int| 0 <= j < b.outputs_of(m).len() implies b.is_tracked(
                    (#[trigger] b.outputs_of(m)[j]).0 as int,
                ) by {
                    assert(a.is_tracked(a.outputs_of(m)[j].0 as int));
                    assert(b.md(a.outputs_of(m)[j].0 as int).tracked_flag() == a.md(a.outputs_of(m)[j].0 as int).tracked_flag());
                }
            }
        }
        if b.mode == SortingMode::Record {
            assert forall|i: int| 0 <= i < pend.len() implies !b.ready(#[trigger] pend[i] as int) by {
                assert(!a.ready(pend[i] as int));
                let j = choose|j: int| 0 <= j < a.inputs_of(pend[i] as int).len() && !a.is_tracked(
                    (#[trigger] a.inputs_of(pend[i] as int)[j]).0 as int);
                a.lemma_record_places(pend[i] as int);
                assert(b.md(a.inputs_of(pend[i] as int)[j].0 as int).tracked_flag() == a.md(a.inputs_of(pend[i] as int)[j].0 as int).tracked_flag());
                assert(a.inputs_of(pend[i] as int)[j] == b.inputs_of(pend[i] as int)[j]);
            }
        }
        if b.mode == SortingMode::Playback {
            assert forall|i: int| 0 <= i < pend.len() implies !(b.ready(#[trigger] pend[i] as int)
                && b.turn_due(pend[i] as int)) by {
                if b.ready(pend[i] as int) {
                    a.lemma_record_places(pend[i] as int);
                    assert forall|j: int| 0 <= j < a.inputs_of(pend[i] as int).len() implies a.is_tracked(
                        (#[trigger] a.inputs_of(pend[i] as int)[j]).0 as int,
                    ) by {
                        assert(a.inputs_of(pend[i] as int)[j] == b.inputs_of(pend[i] as int)[j]);
                        assert(b.is_tracked(b.inputs_of(pend[i] as int)[j].0 as int));
                        assert(b.md(a.inputs_of(pend[i] as int)[j].0 as int).tracked_flag() == a.md(a.inputs_of(pend[i] as int)[j].0 as int).tracked_flag());
                    }
                }
            }
        }
    }
}

} // verus!
