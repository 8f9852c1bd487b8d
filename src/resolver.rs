use vstd::prelude::*;

use crate::order::{AwaitersBroker, ExecOrder, Guide, OrderInfo};
use crate::primitives::{OrderIx, Place, ResolverIx};
use crate::record::{ResolutionRecord, ResolutionRecordItem};
use crate::resolver_box::{ResolverBox, ResolverRecord, MAX_RESOLVERS};
use crate::values::{Metadata, Values};

verus! {

/// Sizes the resolver is built with.
#[derive(Clone, Copy, Debug)]
pub struct CircuitResolverOpts {
    pub max_variables: usize,
    /// The chunk budget of the guide: a power of two, at least one.
    pub desired_parallelism: u32,
}

pub const DEFAULT_PARALLELISM: u32 = 4096;

impl CircuitResolverOpts {
    pub fn new(max_variables: usize) -> (r: CircuitResolverOpts)
        ensures
            r.max_variables == max_variables,
            r.desired_parallelism == 4096,
    {
        CircuitResolverOpts { max_variables, desired_parallelism: DEFAULT_PARALLELISM }
    }
}

/// Who produces the value of a key.
#[derive(Clone, Copy, Debug, PartialEq, Eq, Structural)]
pub enum Producer {
    Unannounced,
    /// The value was assigned directly.
    Assigned,
    /// The registration with this number writes it.
    Resolver(usize),
}

/// How registrations are admitted to the order.
#[derive(Clone, Copy, Debug, PartialEq, Eq, Structural)]
pub enum SortingMode {
    /// Admit each registration as soon as its inputs are tracked, and record
    /// the admissions.
    Record,
    /// Admit registrations in the order a recording gives.
    Playback,
}

/// The tables shared by the sorter, the window and the awaiters.
pub struct ResolverCommonData<V> {
    pub resolvers: ResolverBox,
    pub values: Values<V>,
    pub exec_order: ExecOrder,
    pub awaiters_broker: AwaitersBroker,
}

/// The registrations not yet admitted, and the announced producer of each key.
pub struct Registrar {
    pub producers: Vec<Producer>,
    pub pending: Vec<usize>,
}

/// The work of one order entry, handed to the window: the registration to
/// invoke and the values of its inputs.
pub struct Job<V> {
    pub position: usize,
    pub resolver_ix: ResolverIx,
    pub registration: usize,
    pub inputs: Vec<V>,
    /// How many values the resolution must produce.
    pub n_outputs: usize,
}

/// Why a request breaks the resolver's contract.
#[derive(Clone, Copy, Debug, PartialEq, Eq, Structural)]
pub enum ResolverError {
    /// Registration is over: the order was sealed.
    RegistrationComplete,
    /// A key is not below the number of variables.
    KeyOutOfRange,
    /// A key already has a producer.
    AlreadyTracked,
    /// An output is listed twice.
    DuplicateOutput,
    /// The resolver box is full.
    TooManyResolutions,
    /// The recording knows of fewer registrations.
    PlaybackDiverged,
    /// No key was given to wait for.
    NothingToAwait,
    /// A key to wait for lies past the tracked prefix, so it may never resolve.
    AwaitingHole,
    /// Every key to wait for carries the default stamp.
    AwaitingDefaultTracker,
    /// Playback is ending with registrations missing or not sequenced.
    PlaybackIncomplete,
}

impl ResolverError {
    pub fn message(&self) -> (r: &'static str) {
        match self {
            ResolverError::RegistrationComplete => "registration is already complete",
            ResolverError::KeyOutOfRange => "key is out of range",
            ResolverError::AlreadyTracked => "value is already tracked",
            ResolverError::DuplicateOutput => "an output is listed twice",
            ResolverError::TooManyResolutions => "too many resolutions",
            ResolverError::PlaybackDiverged => "registration diverges from the recording",
            ResolverError::NothingToAwait => "no variable to await",
            ResolverError::AwaitingHole =>
                "the awaiter will never resolve since the awaited variable can't be computed based on currently available registrations",
            ResolverError::AwaitingDefaultTracker => "awaiting variables with the default tracker is not supported",
            ResolverError::PlaybackIncomplete => "playback diverges from the recording: registrations are missing or were never admitted",
        }
    }
}

/// The state of a circuit resolver: registrations, their order, the values,
/// and how far the window has run.
pub struct CircuitResolver<V> {
    pub common: ResolverCommonData<V>,
    pub registrar: Registrar,
    pub guide: Guide,
    pub mode: SortingMode,
    pub record: ResolutionRecord,
    pub registration_complete: bool,
}

pub open spec fn places_below(s: Seq<Place>, n: nat) -> bool {
    forall|j: int| 0 <= j < s.len() ==> (#[trigger] s[j]).0 < n
}

/// Whether every key of `s` is below `n`.
pub fn all_below(s: &[Place], n: usize) -> (r: bool)
    ensures
        r == places_below(s@, n as nat),
{
    let mut j: usize = 0;
    while j < s.len()
        invariant
            j <= s@.len(),
            forall|i: int| 0 <= i < j ==> (#[trigger] s@[i]).0 < n,
        decreases s@.len() - j,
    {
        if s[j].0 >= n {
            return false;
        }
        j = j + 1;
    }
    true
}

/// Whether no key occurs twice in `s`.
pub fn all_distinct(s: &[Place]) -> (r: bool)
    ensures
        r == s@.no_duplicates(),
{
    let mut j: usize = 0;
    while j < s.len()
        invariant
            j <= s@.len(),
            forall|a: int, b: int| 0 <= a < b < j ==> s@[a] != s@[b],
        decreases s@.len() - j,
    {
        let mut i: usize = 0;
        while i < j
            invariant
                i <= j < s@.len(),
                forall|a: int| 0 <= a < i ==> s@[a] != s@[j as int],
            decreases j - i,
        {
            if s[i].0 == s[j].0 {
                return false;
            }
            i = i + 1;
        }
        j = j + 1;
    }
    true
}

impl<V: Copy> CircuitResolver<V> {
    pub open spec fn nvars(&self) -> nat {
        self.common.values.variables@.len()
    }

    pub open spec fn md(&self, p: int) -> Metadata {
        self.common.values.variables@[p].1
    }

    pub open spec fn val(&self, p: int) -> V {
        self.common.values.variables@[p].0
    }

    pub open spec fn recs(&self) -> Seq<ResolverRecord> {
        self.common.resolvers.records@
    }

    pub open spec fn items(&self) -> Seq<OrderInfo> {
        self.common.exec_order.items@
    }

    pub open spec fn size(&self) -> nat {
        self.common.exec_order.size as nat
    }

    pub open spec fn processed(&self) -> nat {
        self.common.awaiters_broker.max_resolved as nat
    }

    pub open spec fn producer(&self, p: int) -> Producer {
        self.registrar.producers@[p]
    }

    pub open spec fn pending(&self) -> Seq<usize> {
        self.registrar.pending@
    }

    /// The registration number of order entry `k`.
    pub open spec fn reg_at(&self, k: int) -> int {
        (self.items()[k].value.0 / 2) as int
    }

    pub open spec fn inputs_of(&self, n: int) -> Seq<Place> {
        self.recs()[n].inputs@
    }

    pub open spec fn outputs_of(&self, n: int) -> Seq<Place> {
        self.recs()[n].outputs@
    }

    pub open spec fn tracker(&self, p: int) -> nat {
        self.md(p).tracker.0 as nat
    }

    pub open spec fn is_tracked(&self, p: int) -> bool {
        self.md(p).tracked_flag()
    }

    pub open spec fn is_resolved(&self, p: int) -> bool {
        self.md(p).resolved_flag()
    }

    /// Every input of registration `n` is tracked.
    pub open spec fn ready(&self, n: int) -> bool {
        forall|j: int|
            0 <= j < self.inputs_of(n).len() ==> self.is_tracked(
                (#[trigger] self.inputs_of(n)[j]).0 as int,
            )
    }

    /// Every output of registration `n` is tracked.
    pub open spec fn outputs_tracked(&self, n: int) -> bool {
        forall|j: int|
            0 <= j < self.outputs_of(n).len() ==> self.is_tracked(
                (#[trigger] self.outputs_of(n)[j]).0 as int,
            )
    }

    pub open spec fn inv_shapes(&self) -> bool {
        &&& self.common.values.wf()
        &&& self.registrar.producers@.len() == self.nvars()
        &&& self.recs().len() <= MAX_RESOLVERS
        &&& forall|n: int|
            0 <= n < self.recs().len() ==> places_below(#[trigger] self.inputs_of(n), self.nvars())
                && places_below(self.outputs_of(n), self.nvars())
                && self.outputs_of(n).no_duplicates()
        &&& self.items().len() <= self.recs().len()
        &&& self.processed() <= self.size() <= self.items().len()
        &&& self.guide.chunk_start == self.size()
        &&& self.guide.parallelism >= 1
        &&& self.registration_complete ==> self.size() == self.items().len()
        &&& forall|k: int|
            0 <= k < self.items().len() ==> (#[trigger] self.items()[k]).value.0 % 2 == 0
                && self.items()[k].value.0 / 2 < self.recs().len()
        &&& self.mode == SortingMode::Record ==> self.record.items@.len() == self.recs().len()
            && self.record.registrations_count == self.recs().len()
    }

    /// Each input of entry `k` is tracked by an earlier entry or assigned.
    pub open spec fn inv_inputs(&self) -> bool {
        forall|k: int, j: int|
            0 <= k < self.items().len() && 0 <= j < self.inputs_of(self.reg_at(k)).len() ==> {
                let p = (#[trigger] self.inputs_of(self.reg_at(k))[j]).0 as int;
                self.is_tracked(p) && self.tracker(p) <= k
            }
    }

    /// Each output of entry `k` carries the stamp `k + 1`.
    pub open spec fn inv_outputs(&self) -> bool {
        forall|k: int, j: int|
            0 <= k < self.items().len() && 0 <= j < self.outputs_of(self.reg_at(k)).len() ==> {
                let p = (#[trigger] self.outputs_of(self.reg_at(k))[j]).0 as int;
                self.is_tracked(p) && self.tracker(p) == k + 1
            }
    }

    /// A non-default stamp `t` names the entry `t - 1` that produces the key.
    pub open spec fn inv_trackers(&self) -> bool {
        forall|p: int|
            0 <= p < self.nvars() && self.is_tracked(p) && #[trigger] self.tracker(p) > 0 ==> {
                &&& self.tracker(p) <= self.items().len()
                &&& self.outputs_of(self.reg_at(self.tracker(p) - 1)).contains(Place(p as usize))
            }
    }

    /// A key is resolved exactly when it is tracked and its producer has run.
    pub open spec fn inv_resolved(&self) -> bool {
        forall|p: int|
            0 <= p < self.nvars() ==> (#[trigger] self.is_resolved(p) <==> self.is_tracked(p)
                && self.tracker(p) <= self.processed())
    }

    pub open spec fn inv_announced(&self) -> bool {
        forall|p: int|
            0 <= p < self.nvars() && #[trigger] self.is_tracked(p) ==> self.producer(p)
                != Producer::Unannounced
    }

    /// The registrations in `pend` are waiting: each owns its outputs, which
    /// are not tracked yet.
    pub open spec fn pending_ok(&self, pend: Seq<usize>) -> bool {
        &&& pend.no_duplicates()
        &&& self.items().len() + pend.len() == self.recs().len()
        &&& forall|i: int, k: int|
            #![trigger pend[i], self.reg_at(k)]
            0 <= i < pend.len() && 0 <= k < self.items().len() ==> pend[i] != self.reg_at(k)
        &&& forall|m: int|
            0 <= m < self.recs().len() && !pend.contains(m as usize) ==> {
                let t = (#[trigger] self.record.items@[m]).accepted_at as int;
                t < self.items().len() && self.reg_at(t) == m
            }
        &&& forall|i: int| 0 <= i < pend.len() ==> (#[trigger] pend[i]) < self.recs().len()
        &&& forall|i: int, j: int|
            0 <= i < pend.len() && 0 <= j < self.outputs_of(pend[i] as int).len() ==> {
                let p = (#[trigger] self.outputs_of(pend[i] as int)[j]).0 as int;
                self.producer(p) == Producer::Resolver(pend[i] as usize) && !self.is_tracked(p)
            }
    }

    /// Every registration is waiting in `pend` or has its outputs tracked.
    pub open spec fn covered(&self, pend: Seq<usize>) -> bool {
        forall|n: int|
            0 <= n < self.recs().len() ==> pend.contains(n as usize) || #[trigger] self.outputs_tracked(n)
    }

    /// No waiting registration could be sequenced now: in record mode none
    /// is ready; in playback mode none is ready whose turn has come.
    pub open spec fn settled(&self, pend: Seq<usize>) -> bool {
        &&& self.mode == SortingMode::Record ==> forall|i: int|
            0 <= i < pend.len() ==> !self.ready(#[trigger] pend[i] as int)
        &&& self.mode == SortingMode::Playback ==> forall|i: int|
            0 <= i < pend.len() ==> !(self.ready(#[trigger] pend[i] as int) && self.turn_due(
                pend[i] as int,
            ))
    }

    /// The recording gives registration `n` the next order position.
    pub open spec fn turn_due(&self, n: int) -> bool {
        n < self.record.items@.len() && self.record.items@[n].accepted_at == self.items().len()
    }

    /// The record lists each sequenced registration with its order position
    /// as its turn.
    pub open spec fn inv_turns(&self) -> bool {
        forall|k: int|
            0 <= k < self.items().len() ==> #[trigger] self.reg_at(k) < self.record.items@.len()
                && self.record.items@[self.reg_at(k)].accepted_at == k
    }

    /// Chunks: an entry's chunk begins at or before it, holds fewer entries
    /// than the budget, and every input of the entry is produced before its
    /// chunk begins. The open chunk begins at `chunk_start`.
    pub open spec fn inv_chunks(&self) -> bool {
        let c = self.guide.chunk_of@;
        &&& c.len() == self.items().len()
        &&& self.items().len() - self.guide.chunk_start < self.guide.parallelism
        &&& forall|k: int|
            0 <= k < c.len() ==> 0 <= #[trigger] c[k] <= k && k - c[k] < self.guide.parallelism && (k
                >= self.guide.chunk_start ==> c[k] == self.guide.chunk_start)
        &&& forall|k: int, j: int|
            0 <= k < c.len() && 0 <= j < self.inputs_of(self.reg_at(k)).len() ==> self.tracker(
                (#[trigger] self.inputs_of(self.reg_at(k))[j]).0 as int,
            ) <= c[k]
    }

    /// The current values of the inputs of registration `n`.
    pub open spec fn input_values(&self, n: int) -> Seq<V> {
        Seq::new(self.inputs_of(n).len(), |i: int| self.val(self.inputs_of(n)[i].0 as int))
    }

    /// Every entry the window has run holds, in its outputs, what `eval`
    /// gives for its registration and its inputs' values.
    pub open spec fn runs_as(&self, eval: spec_fn(int, Seq<V>) -> Seq<V>) -> bool {
        forall|k: int, j: int|
            0 <= k < self.processed() && 0 <= j < self.outputs_of(self.reg_at(k)).len() ==> self.val(
                (#[trigger] self.outputs_of(self.reg_at(k))[j]).0 as int,
            ) == eval(self.reg_at(k), self.input_values(self.reg_at(k)))[j]
    }

    /// A key was assigned exactly when it is tracked with the default stamp.
    pub open spec fn inv_assigned(&self) -> bool {
        forall|p: int|
            0 <= p < self.nvars() ==> (#[trigger] self.producer(p) == Producer::Assigned
                <==> self.is_tracked(p) && self.tracker(p) == 0)
    }

    pub open spec fn core_wf(&self) -> bool {
        &&& self.inv_assigned()
        &&& self.inv_chunks()
        &&& self.inv_turns()
        &&& self.inv_shapes()
        &&& self.inv_inputs()
        &&& self.inv_outputs()
        &&& self.inv_trackers()
        &&& self.inv_resolved()
        &&& self.inv_announced()
    }

    pub open spec fn wf(&self) -> bool {
        &&& self.core_wf()
        &&& self.pending_ok(self.pending())
        &&& self.covered(self.pending())
        &&& self.settled(self.pending())
    }

    /// The registrations, their producers, the mode and the seal are the same
    /// in `self` and `other`.
    pub open spec fn same_registrations(&self, other: &Self) -> bool {
        &&& self.recs() == other.recs()
        &&& self.registrar.producers@ == other.registrar.producers@
        &&& self.mode == other.mode
        &&& self.registration_complete == other.registration_complete
        &&& self.nvars() == other.nvars()
    }

    /// Tracked keys stay tracked.
    pub open spec fn tracking_grows(&self, other: &Self) -> bool {
        forall|p: int| 0 <= p < self.nvars() && #[trigger] self.is_tracked(p) ==> other.is_tracked(p)
    }

    pub fn new(opts: CircuitResolverOpts, filler: V, playback: Option<ResolutionRecord>) -> (r:
        CircuitResolver<V>)
        requires
            opts.max_variables < i64::MAX,
            opts.desired_parallelism >= 1,
        ensures
            r.wf(),
            r.nvars() == opts.max_variables,
            r.guide.parallelism == opts.desired_parallelism,
            r.recs().len() == 0,
            r.items().len() == 0,
            !r.registration_complete,
            forall|p: int| 0 <= p < r.nvars() ==> !#[trigger] r.is_tracked(p),
            forall|p: int| 0 <= p < r.nvars() ==> #[trigger] r.producer(p) == Producer::Unannounced,
            playback is None ==> r.mode == SortingMode::Record,
            playback is Some ==> r.mode == SortingMode::Playback && r.record == playback->0,
    {
        let values = Values::new(opts.max_variables, filler);
        let mut producers: Vec<Producer> = Vec::with_capacity(opts.max_variables);
        let mut i: usize = 0;
        while i < opts.max_variables
            invariant
                i <= opts.max_variables,
                producers@.len() == i,
                forall|p: int| 0 <= p < i ==> producers@[p] == Producer::Unannounced,
            decreases opts.max_variables - i,
        {
            producers.push(Producer::Unannounced);
            i = i + 1;
        }
        let (mode, record) = match playback {
            Some(rec) => (SortingMode::Playback, rec),
            None => (SortingMode::Record, ResolutionRecord::new(0, 0, 0)),
        };
        let r = CircuitResolver {
            common: ResolverCommonData {
                resolvers: ResolverBox::new(),
                values,
                exec_order: ExecOrder::new(),
                awaiters_broker: AwaitersBroker { max_resolved: 0 },
            },
            registrar: Registrar { producers, pending: Vec::new() },
            guide: Guide {
                chunk_start: 0,
                parallelism: opts.desired_parallelism as usize,
                chunk_of: Ghost(Seq::empty()),
            },
            mode,
            record,
            registration_complete: false,
        };
        assert(r.pending() =~= Seq::<usize>::empty());
        r
    }

    /// Closes the open chunk: all sequenced entries become committed.
    fn commit(&mut self)
        requires
            old(self).core_wf(),
        ensures
            final(self).core_wf(),
            final(self).size() == final(self).items().len(),
            final(self).guide.chunk_start == final(self).items().len(),
            final(self).guide.chunk_of == old(self).guide.chunk_of,
            final(self).guide.parallelism == old(self).guide.parallelism,
            final(self).common.values == old(self).common.values,
            final(self).common.resolvers == old(self).common.resolvers,
            final(self).items() == old(self).items(),
            final(self).processed() == old(self).processed(),
            final(self).registrar == old(self).registrar,
            final(self).mode == old(self).mode,
            final(self).record == old(self).record,
            final(self).registration_complete == old(self).registration_complete,
    {
        let len = self.common.exec_order.items.len();
        self.common.exec_order.size = len;
        self.guide.chunk_start = len;
        proof {
            Self::lemma_core_wf_transfer(old(self), self);
        }
    }

    /// Sequences registration `n` at the end of the order: its outputs get the
    /// stamp of that position. A chunk is closed before it when one of its
    /// inputs is produced inside the open chunk, and after it when the chunk
    /// is full.
    fn sequence_one(&mut self, n: usize)
        requires
            old(self).core_wf(),
            !old(self).registration_complete,
            n < old(self).recs().len(),
            old(self).items().len() < old(self).recs().len(),
            old(self).ready(n as int),
            forall|j: int|
                0 <= j < old(self).outputs_of(n as int).len() ==> {
                    let p = (#[trigger] old(self).outputs_of(n as int)[j]).0 as int;
                    old(self).producer(p) == Producer::Resolver(n) && !old(self).is_tracked(p)
                },
            forall|k: int| 0 <= k < old(self).items().len() ==> #[trigger] old(self).reg_at(k) != n,
            old(self).mode == SortingMode::Playback ==> n < old(self).record.items@.len()
                && old(self).record.items@[n as int].accepted_at == old(self).items().len(),
        ensures
            final(self).record.items@.len() == old(self).record.items@.len(),
            final(self).record.values_count == old(self).record.values_count,
            final(self).record.items@[n as int].accepted_at == old(self).items().len(),
            forall|m: int|
                0 <= m < old(self).record.items@.len() && m != n ==> #[trigger] final(self).record.items@[m] == old(self).record.items@[m],
            final(self).core_wf(),
            final(self).same_registrations(old(self)),
            final(self).registrar == old(self).registrar,
            final(self).processed() == old(self).processed(),
            final(self).items().len() == old(self).items().len() + 1,
            forall|k: int|
                0 <= k < old(self).items().len() ==> #[trigger] final(self).items()[k] == old(self).items()[k],
            final(self).reg_at(old(self).items().len() as int) == n,
            forall|p: int|
                0 <= p < old(self).nvars() ==> (#[trigger] final(self).common.values.variables@[p])
                    == if old(self).outputs_of(n as int).contains(Place(p as usize)) {
                    (
                        old(self).val(p),
                        Metadata::new_spec(OrderIx((old(self).items().len() + 1) as u32)),
                    )
                } else {
                    old(self).common.values.variables@[p]
                },
            final(self).mode == SortingMode::Playback ==> final(self).record == old(self).record,
    {
        let k = self.common.exec_order.items.len();
        proof {
            self.lemma_record_places(n as int);
        }
        let m = self.common.values.max_tracker(self.common.resolvers.records[n].inputs.as_slice());
        proof {
            if old(self).inputs_of(n as int).len() > 0 {
                let j = choose|j: int|
                    0 <= j < old(self).inputs_of(n as int).len() && old(self).tracker(
                        (#[trigger] old(self).inputs_of(n as int)[j]).0 as int,
                    ) == m;
                let p = old(self).inputs_of(n as int)[j].0 as int;
                assert(old(self).is_tracked(p));
                if old(self).tracker(p) > 0 {
                    assert(old(self).tracker(p) <= old(self).items().len());
                }
            }
            assert(m <= k);
        }
        if (m as usize) > self.guide.chunk_start {
            self.commit();
        }
        let c = self.guide.chunk_start;
        let hint: u16 = if self.guide.parallelism > 0xffff {
            0xffff
        } else {
            self.guide.parallelism as u16
        };
        let ghost a = *old(self);
        proof {
            self.lemma_record_places(n as int);
        }
        self.common.exec_order.items.push(
            OrderInfo { value: ResolverIx((2 * n) as u32), parallelism: hint },
        );
        self.common.values.track_values(
            self.common.resolvers.records[n].outputs.as_slice(),
            OrderIx::after_position(k),
        );
        if self.mode == SortingMode::Record {
            let item = ResolutionRecordItem {
                added_at: n as u32,
                accepted_at: k as u32,
                order_len: k,
                order_ix: OrderIx(k as u32),
                parallelism: hint,
            };
            self.record.items.set(n, item);
        }
        let len = self.common.exec_order.items.len();
        if len - c >= self.guide.parallelism {
            self.common.exec_order.size = len;
            self.guide.chunk_start = len;
        }
        self.guide.chunk_of = Ghost(self.guide.chunk_of@.push(c as int));
        proof {
            Self::lemma_sequence(&a, self, n as int);
        }
    }

    /// Whether every input of registration `n` is tracked.
    fn is_ready(&self, n: usize) -> (r: bool)
        requires
            self.inv_shapes(),
            n < self.recs().len(),
        ensures
            r == self.ready(n as int),
    {
        proof {
            self.lemma_record_places(n as int);
        }
        let inputs = &self.common.resolvers.records[n].inputs;
        let mut j: usize = 0;
        while j < inputs.len()
            invariant
                j <= inputs@.len(),
                inputs@ == self.inputs_of(n as int),
                places_below(self.inputs_of(n as int), self.nvars()),
                self.inv_shapes(),
                forall|i: int| 0 <= i < j ==> self.is_tracked((#[trigger] inputs@[i]).0 as int),
            decreases inputs@.len() - j,
        {
            if !self.common.values.variables[inputs[j].0].1.is_tracked() {
                return false;
            }
            j = j + 1;
        }
        true
    }

    /// Record mode: sequences the waiting registrations whose inputs are
    /// tracked, pass after pass, until a pass sequences none.
    fn drain_ready(&mut self)
        requires
            old(self).core_wf(),
            !old(self).registration_complete,
            old(self).pending_ok(old(self).pending()),
            old(self).covered(old(self).pending()),
            old(self).mode == SortingMode::Record,
        ensures
            final(self).wf(),
            final(self).same_registrations(old(self)),
            final(self).processed() == old(self).processed(),
            final(self).record.items@.len() == old(self).record.items@.len(),
            final(self).record.values_count == old(self).record.values_count,
            old(self).tracking_grows(final(self)),
            old(self).items().len() <= final(self).items().len(),
            forall|k: int|
                0 <= k < old(self).items().len() ==> #[trigger] final(self).items()[k] == old(self).items()[k],
            forall|p: int|
                0 <= p < old(self).nvars() && old(self).is_tracked(p) ==> #[trigger] final(self).common.values.variables@[p]
                    == old(self).common.values.variables@[p],
    {
        let mut progress = true;
        while progress
            invariant
                self.core_wf(),
                self.pending_ok(self.pending()),
                self.covered(self.pending()),
                !progress ==> self.settled(self.pending()),
                self.same_registrations(old(self)),
                !self.registration_complete,
                self.mode == SortingMode::Record,
                self.processed() == old(self).processed(),
                self.record.items@.len() == old(self).record.items@.len(),
                self.record.values_count == old(self).record.values_count,
                old(self).tracking_grows(self),
                old(self).items().len() <= self.items().len(),
                forall|k: int|
                    0 <= k < old(self).items().len() ==> #[trigger] self.items()[k] == old(self).items()[k],
                forall|p: int|
                    0 <= p < old(self).nvars() && old(self).is_tracked(p) ==> #[trigger] self.common.values.variables@[p]
                        == old(self).common.values.variables@[p],
            decreases 2 * self.pending().len() + if progress {
                1int
            } else {
                0int
            },
        {
            let mut todo: Vec<usize> = Vec::new();
            let ghost before_swap = *self;
            std::mem::swap(&mut todo, &mut self.registrar.pending);
            proof {
                Self::lemma_same_tables(&before_swap, self, todo@);
            }
            let mut rest: Vec<usize> = Vec::new();
            progress = false;
            let mut j: usize = 0;
            assert(rest@ + todo@.subrange(0, todo@.len() as int) == todo@);
            while j < todo.len()
                invariant
                    j <= todo@.len(),
                    self.core_wf(),
                    self.pending_ok(rest@ + todo@.subrange(j as int, todo@.len() as int)),
                    self.covered(rest@ + todo@.subrange(j as int, todo@.len() as int)),
                    !progress ==> rest@.len() == j && forall|x: int|
                        0 <= x < rest@.len() ==> !self.ready(#[trigger] rest@[x] as int),
                    progress ==> rest@.len() < j,
                    self.same_registrations(old(self)),
                    !self.registration_complete,
                    self.mode == SortingMode::Record,
                    self.processed() == old(self).processed(),
                    self.record.items@.len() == old(self).record.items@.len(),
                    self.record.values_count == old(self).record.values_count,
                self.record.values_count == old(self).record.values_count,
                    old(self).tracking_grows(self),
                    old(self).items().len() <= self.items().len(),
                    forall|k: int|
                        0 <= k < old(self).items().len() ==> #[trigger] self.items()[k] == old(self).items()[k],
                    forall|p: int|
                    0 <= p < old(self).nvars() && old(self).is_tracked(p) ==> #[trigger] self.common.values.variables@[p]
                        == old(self).common.values.variables@[p],
                decreases todo@.len() - j,
            {
                let n = todo[j];
                let ghost pend = rest@ + todo@.subrange(j as int, todo@.len() as int);
                assert(pend[rest@.len() as int] == n);
                if self.is_ready(n) {
                    let ghost a = *self;
                    self.sequence_one(n);
                    proof {
                        Self::lemma_pending_after_sequence(&a, self, pend, rest@.len() as int);
                        assert(pend.remove(rest@.len() as int) =~= rest@ + todo@.subrange(
                            j + 1,
                            todo@.len() as int,
                        ));
                    }
                    progress = true;
                } else {
                    rest.push(n);
                    assert(rest@ + todo@.subrange(j + 1, todo@.len() as int) =~= pend);
                }
                j = j + 1;
            }
            assert(rest@ + todo@.subrange(j as int, todo@.len() as int) =~= rest@);
            let ghost before_set = *self;
            self.registrar.pending = rest;
            proof {
                Self::lemma_same_tables(&before_set, self, self.pending());
            }
        }
    }

    /// The index among the waiting registrations of the one whose turn the
    /// recording gives now, if it is ready.
    fn find_turn(&self) -> (r: Option<usize>)
        requires
            self.core_wf(),
            self.pending_ok(self.pending()),
        ensures
            r matches Some(i) ==> i < self.pending().len() && self.ready(self.pending()[i as int]
                as int) && self.pending()[i as int] < self.record.items@.len()
                && self.record.items@[self.pending()[i as int] as int].accepted_at
                == self.items().len(),
            r is None ==> forall|i: int|
                0 <= i < self.pending().len() ==> !(self.ready(#[trigger] self.pending()[i] as int)
                    && self.turn_due(self.pending()[i] as int)),
    {
        let turn = self.common.exec_order.items.len();
        let mut i: usize = 0;
        while i < self.registrar.pending.len()
            invariant
                i <= self.pending().len(),
                turn == self.items().len(),
                self.core_wf(),
                self.pending_ok(self.pending()),
                forall|x: int|
                    0 <= x < i ==> !(self.ready(#[trigger] self.pending()[x] as int) && self.turn_due(
                        self.pending()[x] as int,
                    )),
            decreases self.pending().len() - i,
        {
            let n = self.registrar.pending[i];
            if n < self.record.items.len() && self.record.items[n].accepted_at as usize == turn
                && self.is_ready(n) {
                return Some(i);
            }
            i = i + 1;
        }
        None
    }

    /// Playback mode: sequences the registration whose turn has come, as
    /// long as it is registered and ready.
    fn drain_turns(&mut self)
        requires
            old(self).core_wf(),
            !old(self).registration_complete,
            old(self).pending_ok(old(self).pending()),
            old(self).covered(old(self).pending()),
            old(self).mode == SortingMode::Playback,
        ensures
            final(self).wf(),
            final(self).same_registrations(old(self)),
            final(self).processed() == old(self).processed(),
            final(self).record == old(self).record,
            old(self).tracking_grows(final(self)),
            old(self).items().len() <= final(self).items().len(),
            forall|k: int|
                0 <= k < old(self).items().len() ==> #[trigger] final(self).items()[k] == old(self).items()[k],
            forall|p: int|
                0 <= p < old(self).nvars() && old(self).is_tracked(p) ==> #[trigger] final(self).common.values.variables@[p]
                    == old(self).common.values.variables@[p],
    {
        let mut go = true;
        while go
            invariant
                self.core_wf(),
                self.pending_ok(self.pending()),
                self.covered(self.pending()),
                self.same_registrations(old(self)),
                !self.registration_complete,
                self.mode == SortingMode::Playback,
                !go ==> self.settled(self.pending()),
                self.processed() == old(self).processed(),
                self.record == old(self).record,
                old(self).tracking_grows(self),
                old(self).items().len() <= self.items().len(),
                forall|k: int|
                    0 <= k < old(self).items().len() ==> #[trigger] self.items()[k] == old(self).items()[k],
                forall|p: int|
                    0 <= p < old(self).nvars() && old(self).is_tracked(p) ==> #[trigger] self.common.values.variables@[p]
                        == old(self).common.values.variables@[p],
            decreases self.pending().len() + if go {
                1int
            } else {
                0int
            },
        {
            match self.find_turn() {
                Some(i) => {
                    let ghost a = *self;
                    let ghost pend = self.pending();
                    let n = self.registrar.pending.remove(i);
                    assert(n == pend[i as int]);
                    proof {
                        Self::lemma_same_tables(&a, self, pend);
                    }
                    self.sequence_one(n);
                    proof {
                        Self::lemma_pending_after_sequence(&a, self, pend, i as int);
                    }
                },
                None => {
                    go = false;
                },
            }
        }
    }

    /// Sequences whatever the mode allows after a key became tracked or a
    /// registration arrived.
    fn drain(&mut self)
        requires
            old(self).core_wf(),
            !old(self).registration_complete,
            old(self).pending_ok(old(self).pending()),
            old(self).covered(old(self).pending()),
        ensures
            final(self).wf(),
            final(self).same_registrations(old(self)),
            final(self).processed() == old(self).processed(),
            final(self).record.items@.len() == old(self).record.items@.len(),
            final(self).record.values_count == old(self).record.values_count,
            final(self).mode == SortingMode::Playback ==> final(self).record == old(self).record,
            old(self).tracking_grows(final(self)),
            old(self).items().len() <= final(self).items().len(),
            forall|k: int|
                0 <= k < old(self).items().len() ==> #[trigger] final(self).items()[k] == old(self).items()[k],
            forall|p: int|
                0 <= p < old(self).nvars() && old(self).is_tracked(p) ==> #[trigger] final(self).common.values.variables@[p]
                    == old(self).common.values.variables@[p],
    {
        if self.mode == SortingMode::Record {
            self.drain_ready();
        } else {
            self.drain_turns();
        }
    }

    /// A key may be assigned when it has no producer yet.
    pub open spec fn can_set(&self, key: Place) -> bool {
        &&& !self.registration_complete
        &&& key.0 < self.nvars()
        &&& self.producer(key.0 as int) == Producer::Unannounced
    }

    /// A resolution may be registered when its keys exist, its outputs are
    /// distinct and have no producer yet, the box has room, and (in playback)
    /// the recording knows of it.
    pub open spec fn can_register(&self, inputs: Seq<Place>, outputs: Seq<Place>) -> bool {
        &&& !self.registration_complete
        &&& self.recs().len() < MAX_RESOLVERS
        &&& places_below(inputs, self.nvars())
        &&& places_below(outputs, self.nvars())
        &&& outputs.no_duplicates()
        &&& forall|j: int|
            0 <= j < outputs.len() ==> self.producer((#[trigger] outputs[j]).0 as int)
                == Producer::Unannounced
        &&& self.mode == SortingMode::Playback ==> self.recs().len() < self.record.items@.len()
    }

    /// Assigns `value` to `key`; the key is then resolved with the default
    /// stamp, and the waiting registrations it unblocks are sequenced.
    pub fn set_value(&mut self, key: Place, value: V)
        requires
            old(self).wf(),
            old(self).can_set(key),
        ensures
            final(self).wf(),
            final(self).is_resolved(key.0 as int),
            final(self).val(key.0 as int) == value,
            final(self).tracker(key.0 as int) == 0,
            final(self).producer(key.0 as int) == Producer::Assigned,
            old(self).record.values_count < usize::MAX ==> final(self).record.values_count
                == old(self).record.values_count + 1,
            forall|p: int|
                0 <= p < old(self).nvars() && p != key.0 ==> #[trigger] final(self).producer(p)
                    == old(self).producer(p),
            final(self).recs() == old(self).recs(),
            final(self).processed() == old(self).processed(),
            final(self).mode == old(self).mode,
            !final(self).registration_complete,
            final(self).nvars() == old(self).nvars(),
            old(self).tracking_grows(final(self)),
            old(self).items().len() <= final(self).items().len(),
            forall|k: int|
                0 <= k < old(self).items().len() ==> #[trigger] final(self).items()[k] == old(self).items()[k],
            forall|p: int|
                0 <= p < old(self).nvars() && old(self).is_tracked(p) ==> #[trigger] final(self).common.values.variables@[p] == old(self).common.values.variables@[p],
    {
        let ghost a = *old(self);
        proof {
            assert(!a.is_tracked(key.0 as int));
        }
        self.common.values.set_value(key, value);
        self.registrar.producers.set(key.0, Producer::Assigned);
        if self.record.values_count < usize::MAX {
            self.record.values_count = self.record.values_count + 1;
        }
        proof {
            Self::lemma_assign(&a, self, key.0 as int, value);
            Metadata::lemma_new_spec_flags(OrderIx(0));
        }
        let ghost mid = *self;
        self.drain();
        proof {
            assert(mid.is_tracked(key.0 as int));
            assert(self.common.values.variables@[key.0 as int] == mid.common.values.variables@[key.0 as int]);
            assert forall|p: int|
                0 <= p < a.nvars() && a.is_tracked(p) implies #[trigger] self.common.values.variables@[p]
                == a.common.values.variables@[p] by {
                assert(p != key.0);
                assert(mid.is_tracked(p));
            }
            assert forall|p: int| 0 <= p < a.nvars() && #[trigger] a.is_tracked(p) implies self.is_tracked(p) by {
                assert(mid.is_tracked(p));
            }
        }
    }

    /// Registers a resolution from `inputs` to `outputs` and returns its
    /// index. It waits until its inputs are tracked (in playback: until its
    /// recorded turn), and is then sequenced.
    pub fn add_resolution(&mut self, inputs: &[Place], outputs: &[Place]) -> (r: ResolverIx)
        requires
            old(self).wf(),
            old(self).can_register(inputs@, outputs@),
        ensures
            final(self).wf(),
            r.0 == 2 * old(self).recs().len(),
            final(self).recs().len() == old(self).recs().len() + 1,
            forall|m: int|
                0 <= m < old(self).recs().len() ==> #[trigger] final(self).recs()[m] == old(self).recs()[m],
            final(self).inputs_of(old(self).recs().len() as int) == inputs@,
            final(self).outputs_of(old(self).recs().len() as int) == outputs@,
            forall|p: int|
                0 <= p < old(self).nvars() ==> #[trigger] final(self).producer(p) == if outputs@.contains(
                    Place(p as usize),
                ) {
                    Producer::Resolver(old(self).recs().len() as usize)
                } else {
                    old(self).producer(p)
                },
            final(self).processed() == old(self).processed(),
            final(self).mode == old(self).mode,
            !final(self).registration_complete,
            final(self).nvars() == old(self).nvars(),
            old(self).tracking_grows(final(self)),
            old(self).items().len() <= final(self).items().len(),
            forall|k: int|
                0 <= k < old(self).items().len() ==> #[trigger] final(self).items()[k] == old(self).items()[k],
            forall|p: int|
                0 <= p < old(self).nvars() && old(self).is_tracked(p) ==> #[trigger] final(self).common.values.variables@[p] == old(self).common.values.variables@[p],
    {
        let ghost a = *old(self);
        let n = self.common.resolvers.records.len();
        let ix = self.common.resolvers.push(inputs, outputs);
        let ghost b0 = *self;
        let mut j: usize = 0;
        while j < outputs.len()
            invariant
                j <= outputs@.len(),
                self.common == b0.common,
                self.guide == b0.guide,
                self.mode == b0.mode,
                self.record == b0.record,
                self.registration_complete == b0.registration_complete,
                self.registrar.pending == b0.registrar.pending,
                b0.common.values == a.common.values,
                a.nvars() <= usize::MAX,
                n == a.recs().len(),
                self.registrar.producers@.len() == a.registrar.producers@.len(),
                a.registrar.producers@.len() == a.nvars(),
                places_below(outputs@, a.nvars()),
                forall|p: int|
                    0 <= p < a.nvars() ==> #[trigger] self.producer(p) == if outputs@.subrange(
                        0,
                        j as int,
                    ).contains(Place(p as usize)) {
                        Producer::Resolver(n)
                    } else {
                        a.producer(p)
                    },
            decreases outputs@.len() - j,
        {
            let o = outputs[j];
            let ghost prev = *self;
            self.registrar.producers.set(o.0, Producer::Resolver(n));
            assert forall|p: int| 0 <= p < a.nvars() implies #[trigger] self.producer(p)
                == if outputs@.subrange(0, j + 1).contains(Place(p as usize)) {
                Producer::Resolver(n)
            } else {
                a.producer(p)
            } by {
                assert(outputs@.subrange(0, j + 1) == outputs@.subrange(0, j as int).push(o));
                if p == o.0 {
                    assert(outputs@.subrange(0, j + 1)[j as int] == Place(p as usize));
                } else {
                    assert(Place(p as usize) != o);
                    assert(self.producer(p) == prev.producer(p));
                }
            }
            j = j + 1;
        }
        assert(outputs@.subrange(0, outputs@.len() as int) == outputs@);
        let ghost c = *self;
        if self.mode == SortingMode::Record {
            let mut item = ResolutionRecordItem::default_item();
            item.added_at = n as u32;
            self.record.items.push(item);
            self.record.registrations_count = n + 1;
        }
        self.registrar.pending.push(n);
        proof {
            assert forall|p: int| 0 <= p < a.nvars() implies #[trigger] self.producer(p) == if outputs@.contains(
                Place(p as usize),
            ) {
                Producer::Resolver(a.recs().len() as usize)
            } else {
                a.producer(p)
            } by {
                assert(self.producer(p) == c.producer(p));
            }
            Self::lemma_register(&a, self, inputs@, outputs@);
        }
        let ghost mid = *self;
        self.drain();
        proof {
            assert forall|p: int|
                0 <= p < a.nvars() && a.is_tracked(p) implies #[trigger] self.common.values.variables@[p]
                == a.common.values.variables@[p] by {
                assert(mid.common.values.variables@[p] == a.common.values.variables@[p]);
                assert(mid.is_tracked(p));
            }
            assert forall|p: int| 0 <= p < a.nvars() && #[trigger] a.is_tracked(p) implies self.is_tracked(p) by {
                assert(mid.common.values.variables@[p] == a.common.values.variables@[p]);
                assert(mid.is_tracked(p));
            }
            assert forall|p: int| 0 <= p < a.nvars() implies #[trigger] self.producer(p) == if outputs@.contains(
                Place(p as usize),
            ) {
                Producer::Resolver(a.recs().len() as usize)
            } else {
                a.producer(p)
            } by {
                assert(self.producer(p) == mid.producer(p));
            }
        }
        ix
    }

    /// The next committed entry the window has not run, with the values of its
    /// inputs, which are all resolved.
    pub fn next_job(&self) -> (r: Option<Job<V>>)
        requires
            self.wf(),
        ensures
            r is None <==> self.processed() == self.size(),
            r matches Some(job) ==> {
                let k = self.processed() as int;
                let n = self.reg_at(k);
                &&& job.position == k
                &&& job.registration == n
                &&& job.resolver_ix == self.items()[k].value
                &&& job.inputs@.len() == self.inputs_of(n).len()
                &&& job.n_outputs == self.outputs_of(n).len()
                &&& forall|j: int|
                    0 <= j < job.inputs@.len() ==> {
                        let p = (#[trigger] self.inputs_of(n)[j]).0 as int;
                        job.inputs@[j] == self.val(p) && self.is_resolved(p)
                    }
            },
    {
        let k = self.common.awaiters_broker.max_resolved;
        if k == self.common.exec_order.size {
            return None;
        }
        let ix = self.common.exec_order.items[k].value;
        let n = ix.normalized() / 2;
        let ghost reg = self.reg_at(k as int);
        proof {
            self.lemma_record_places(reg);
        }
        let ins = &self.common.resolvers.get(ix).inputs;
        let mut inputs: Vec<V> = Vec::with_capacity(ins.len());
        let mut j: usize = 0;
        while j < ins.len()
            invariant
                self.wf(),
                k == self.processed(),
                k < self.size(),
                n == reg,
                reg == self.reg_at(k as int),
                ins@ == self.inputs_of(reg),
                places_below(ins@, self.nvars()),
                j <= ins@.len(),
                inputs@.len() == j,
                forall|i: int|
                    0 <= i < j ==> {
                        let p = (#[trigger] self.inputs_of(reg)[i]).0 as int;
                        inputs@[i] == self.val(p) && self.is_resolved(p)
                    },
            decreases ins@.len() - j,
        {
            let p = ins[j];
            let v = self.common.values.variables[p.0].0;
            inputs.push(v);
            proof {
                assert(self.inputs_of(reg)[j as int] == p);
                assert(self.inputs_of(self.reg_at(k as int))[j as int] == p);
                assert(self.is_tracked(p.0 as int) && self.tracker(p.0 as int) <= k);
                assert(self.is_resolved(p.0 as int));
            }
            j = j + 1;
        }
        let n_outputs = self.common.resolvers.records[n].outputs.len();
        Some(Job { position: k, resolver_ix: ix, registration: n, inputs, n_outputs })
    }

    /// Stores the values the window computed for the next entry: its outputs
    /// are written in order and resolved, and the window moves past it.
    pub fn complete_next(&mut self, outs: &[V])
        requires
            old(self).wf(),
            old(self).processed() < old(self).size(),
            outs@.len() == old(self).outputs_of(old(self).reg_at(old(self).processed() as int)).len(),
        ensures
            final(self).wf(),
            final(self).processed() == old(self).processed() + 1,
            final(self).recs() == old(self).recs(),
            final(self).items() == old(self).items(),
            final(self).size() == old(self).size(),
            final(self).registrar == old(self).registrar,
            final(self).mode == old(self).mode,
            final(self).registration_complete == old(self).registration_complete,
            final(self).nvars() == old(self).nvars(),
            forall|j: int|
                0 <= j < outs@.len() ==> {
                    let p = (#[trigger] old(self).outputs_of(
                        old(self).reg_at(old(self).processed() as int),
                    )[j]).0 as int;
                    final(self).val(p) == outs@[j] && final(self).is_resolved(p)
                },
            forall|p: int|
                0 <= p < old(self).nvars() && !old(self).outputs_of(
                    old(self).reg_at(old(self).processed() as int),
                ).contains(Place(p as usize)) ==> #[trigger] final(self).common.values.variables@[p]
                    == old(self).common.values.variables@[p],
            forall|p: int|
                0 <= p < old(self).nvars() && old(self).is_resolved(p) ==> #[trigger] final(self).common.values.variables@[p] == old(self).common.values.variables@[p],
    {
        let ghost a = *old(self);
        let k = self.common.awaiters_broker.max_resolved;
        let n = self.common.exec_order.items[k].value.normalized() / 2;
        let ghost reg = a.reg_at(k as int);
        let ghost os = a.outputs_of(reg);
        proof {
            a.lemma_record_places(reg);
        }
        let mut j: usize = 0;
        while j < outs.len()
            invariant
                n == reg,
                0 <= reg < a.recs().len(),
                os == a.outputs_of(reg),
                os.len() == outs@.len(),
                places_below(os, a.nvars()),
                os.no_duplicates(),
                j <= outs@.len(),
                self.common.values.wf(),
                self.nvars() == a.nvars(),
                self.common.resolvers == a.common.resolvers,
                self.common.exec_order == a.common.exec_order,
                self.common.awaiters_broker == a.common.awaiters_broker,
                self.guide == a.guide,
                self.registrar == a.registrar,
                self.mode == a.mode,
                self.record == a.record,
                self.registration_complete == a.registration_complete,
                forall|i: int|
                    0 <= i < j ==> {
                        let p = (#[trigger] os[i]).0 as int;
                        self.val(p) == outs@[i] && self.md(p).resolved_flag() && self.md(
                            p,
                        ).tracked_flag() == a.md(p).tracked_flag() && self.md(p).tracker == a.md(
                            p,
                        ).tracker
                    },
                forall|p: int|
                    0 <= p < a.nvars() && !os.subrange(0, j as int).contains(Place(p as usize))
                        ==> #[trigger] self.common.values.variables@[p]
                        == a.common.values.variables@[p],
            decreases outs@.len() - j,
        {
            let o = self.common.resolvers.records[n].outputs[j];
            let ghost prev = *self;
            self.common.values.resolve(o, outs[j]);
            proof {
                assert(os[j as int] == o);
                assert forall|i: int| 0 <= i < j + 1 implies {
                    let p = (#[trigger] os[i]).0 as int;
                    self.val(p) == outs@[i] && self.md(p).resolved_flag() && self.md(
                        p,
                    ).tracked_flag() == a.md(p).tracked_flag() && self.md(p).tracker == a.md(
                        p,
                    ).tracker
                } by {
                    if i < j {
                        assert(os[i] != os[j as int]);
                        assert(self.common.values.variables@[os[i].0 as int] == prev.common.values.variables@[os[i].0 as int]);
                    } else {
                        assert(!os.subrange(0, j as int).contains(o)) by {
                            if os.subrange(0, j as int).contains(o) {
                                let x = choose|x: int| 0 <= x < j && os.subrange(0, j as int)[x] == o;
                                assert(os[x] == os[j as int]);
                            }
                        }
                        assert(prev.common.values.variables@[o.0 as int] == a.common.values.variables@[o.0 as int]);
                    }
                }
                assert forall|p: int|
                    0 <= p < a.nvars() && !os.subrange(0, j + 1).contains(Place(p as usize))
                        implies #[trigger] self.common.values.variables@[p]
                        == a.common.values.variables@[p] by {
                    assert(os.subrange(0, j + 1) == os.subrange(0, j as int).push(o));
                    assert(os.subrange(0, j + 1)[j as int] == o);
                    assert(p != o.0);
                    assert(!os.subrange(0, j as int).contains(Place(p as usize))) by {
                        if os.subrange(0, j as int).contains(Place(p as usize)) {
                            let x = choose|x: int| 0 <= x < j && os.subrange(0, j as int)[x] == Place(p as usize);
                            assert(os.subrange(0, j + 1)[x] == Place(p as usize));
                        }
                    }
                }
            }
            j = j + 1;
        }
        self.common.awaiters_broker.max_resolved = k + 1;
        proof {
            assert(os.subrange(0, os.len() as int) == os);
            assert forall|p: int|
                0 <= p < a.nvars() && os.contains(Place(p as usize)) implies (#[trigger] self.md(p)).tracked_flag()
                    == a.md(p).tracked_flag() && self.md(p).tracker == a.md(p).tracker
                    && self.md(p).resolved_flag() by {
                let x = choose|x: int| 0 <= x < os.len() && os[x] == Place(p as usize);
                assert(os[x].0 == p);
            }
            Self::lemma_complete(&a, self);
            assert forall|p: int| 0 <= p < a.nvars() && a.is_resolved(p) implies #[trigger] self.common.values.variables@[p]
                == a.common.values.variables@[p] by {
                if os.contains(Place(p as usize)) {
                    let x = choose|x: int| 0 <= x < os.len() && os[x] == Place(p as usize);
                    assert(os[x].0 == p);
                    assert(a.outputs_of(a.reg_at(k as int))[x] == os[x]);
                }
            }
        }
    }

    /// Commits the open chunk so the window can run every sequenced entry.
    pub fn flush(&mut self)
        requires
            old(self).wf(),
        ensures
            final(self).wf(),
            final(self).size() == final(self).items().len(),
            final(self).common.values == old(self).common.values,
            final(self).recs() == old(self).recs(),
            final(self).items() == old(self).items(),
            final(self).processed() == old(self).processed(),
            final(self).registrar == old(self).registrar,
            final(self).mode == old(self).mode,
            final(self).record == old(self).record,
            final(self).registration_complete == old(self).registration_complete,
    {
        let ghost a = *old(self);
        self.commit();
        proof {
            Self::lemma_same_tables(&a, self, a.pending());
        }
    }

    /// Ends registration: commits the open chunk and seals the order. A
    /// second call changes nothing.
    pub fn final_flush(&mut self)
        requires
            old(self).wf(),
        ensures
            final(self).wf(),
            final(self).registration_complete,
            final(self).size() == final(self).items().len(),
            old(self).registration_complete ==> *final(self) == *old(self),
            final(self).common.values == old(self).common.values,
            final(self).recs() == old(self).recs(),
            final(self).items() == old(self).items(),
            final(self).processed() == old(self).processed(),
            final(self).registrar == old(self).registrar,
            final(self).mode == old(self).mode,
            final(self).record == old(self).record,
    {
        if !self.registration_complete {
            self.flush();
            let ghost a = *self;
            self.registration_complete = true;
            proof {
                Self::lemma_same_tables(&a, self, a.pending());
            }
        }
    }

    /// The window has run every entry and no more will come.
    pub fn is_finished(&self) -> (r: bool)
        ensures
            r == (self.registration_complete && self.processed() == self.size()),
    {
        self.registration_complete && self.common.awaiters_broker.max_resolved
            == self.common.exec_order.size
    }

    pub fn registrations(&self) -> (r: usize)
        ensures
            r == self.recs().len(),
    {
        self.common.resolvers.records.len()
    }

    pub fn max_variables(&self) -> (r: usize)
        ensures
            r == self.nvars(),
    {
        self.common.values.variables.len()
    }

    /// The value of `key` once it is resolved.
    pub fn try_get_value(&self, key: Place) -> (r: Option<V>)
        requires
            key.0 < self.nvars(),
        ensures
            r == if self.is_resolved(key.0 as int) {
                Some(self.val(key.0 as int))
            } else {
                None
            },
    {
        let (v, md) = *self.common.values.get_item_ref(key);
        if md.is_resolved() {
            Some(v)
        } else {
            None
        }
    }

    /// The value of a resolved key.
    pub fn get_value_unchecked(&self, key: Place) -> (r: V)
        requires
            key.0 < self.nvars(),
            self.is_resolved(key.0 as int),
        ensures
            r == self.val(key.0 as int),
    {
        self.common.values.get_item_ref(key).0
    }

    /// The stamp of `key`: zero for an assigned or untracked key, `k + 1`
    /// when order entry `k` produces it.
    pub fn tracker_of(&self, key: Place) -> (r: OrderIx)
        requires
            key.0 < self.nvars(),
        ensures
            r.0 == self.tracker(key.0 as int),
    {
        self.common.values.get_item_ref(key).1.tracker
    }

    /// Whether the producer of `key` has been announced to the order.
    pub fn key_is_tracked(&self, key: Place) -> (r: bool)
        requires
            key.0 < self.nvars(),
        ensures
            r == self.is_tracked(key.0 as int),
    {
        self.common.values.get_item_ref(key).1.is_tracked()
    }

    /// Keys may be awaited when all lie in the tracked prefix and one of
    /// them has a producer in the order.
    pub open spec fn can_await(&self, vars: Seq<Place>) -> bool {
        &&& vars.len() > 0
        &&& forall|j: int|
            0 <= j < vars.len() ==> (#[trigger] vars[j]).0 <= self.common.values.max_tracked
        &&& exists|j: int| 0 <= j < vars.len() && self.tracker((#[trigger] vars[j]).0 as int) > 0
    }

    /// The stamp an awaiter on `vars` waits for: the largest among them. The
    /// open chunk is committed so the window can reach it.
    pub fn get_awaiter(&mut self, vars: &[Place]) -> (r: OrderIx)
        requires
            old(self).wf(),
            old(self).can_await(vars@),
        ensures
            final(self).wf(),
            final(self).size() == final(self).items().len(),
            r.0 > 0,
            forall|j: int|
                0 <= j < vars@.len() ==> final(self).is_tracked((#[trigger] vars@[j]).0 as int)
                    && final(self).tracker(vars@[j].0 as int) <= r.0,
            exists|j: int|
                0 <= j < vars@.len() && final(self).tracker((#[trigger] vars@[j]).0 as int)
                    == r.0,
            final(self).common.values == old(self).common.values,
            final(self).recs() == old(self).recs(),
            final(self).items() == old(self).items(),
            final(self).processed() == old(self).processed(),
            final(self).registrar == old(self).registrar,
            final(self).mode == old(self).mode,
            final(self).registration_complete == old(self).registration_complete,
    {
        proof {
            assert forall|j: int| 0 <= j < vars@.len() implies (#[trigger] vars@[j]).0 < self.nvars()
                && self.is_tracked(vars@[j].0 as int) by {
                assert(vars@[j].0 <= self.common.values.max_tracked);
                let i = vars@[j].0 as int;
                assert(self.common.values.variables@[i].1.tracked_flag());
            }
        }
        let t = self.common.values.max_tracker(vars);
        self.flush();
        proof {
            let j = choose|j: int| 0 <= j < vars@.len() && old(self).tracker((#[trigger] vars@[j]).0 as int) > 0;
            assert(old(self).tracker(vars@[j].0 as int) <= t);
        }
        OrderIx(t)
    }

    /// Whether the window has run the entry that stamps `t`.
    pub fn is_reached(&self, t: OrderIx) -> (r: bool)
        ensures
            r == (t.0 <= self.processed()),
    {
        t.0 as usize <= self.common.awaiters_broker.max_resolved
    }

    /// The recording; complete once registration is over.
    pub fn retrieve_sequence(&self) -> (r: &ResolutionRecord)
        requires
            self.registration_complete,
        ensures
            *r == self.record,
    {
        &self.record
    }

    pub fn check_set_value(&self, key: Place) -> (r: Result<(), ResolverError>)
        requires
            self.wf(),
        ensures
            r is Ok <==> self.can_set(key),
            r == Err::<(), ResolverError>(ResolverError::RegistrationComplete) <==> self.registration_complete,
            r == Err::<(), ResolverError>(ResolverError::KeyOutOfRange) <==> !self.registration_complete
                && key.0 >= self.nvars(),
            r == Err::<(), ResolverError>(ResolverError::AlreadyTracked) <==> !self.registration_complete
                && key.0 < self.nvars() && self.producer(key.0 as int) != Producer::Unannounced,
    {
        if self.registration_complete {
            Err(ResolverError::RegistrationComplete)
        } else if key.0 >= self.registrar.producers.len() {
            Err(ResolverError::KeyOutOfRange)
        } else if self.registrar.producers[key.0] != Producer::Unannounced {
            Err(ResolverError::AlreadyTracked)
        } else {
            Ok(())
        }
    }

    /// Whether every key of `outputs` still lacks a producer.
    fn all_unannounced(&self, outputs: &[Place]) -> (r: bool)
        requires
            self.registrar.producers@.len() == self.nvars(),
            places_below(outputs@, self.nvars()),
        ensures
            r == forall|j: int|
                0 <= j < outputs@.len() ==> self.producer((#[trigger] outputs@[j]).0 as int)
                    == Producer::Unannounced,
    {
        let mut j: usize = 0;
        while j < outputs.len()
            invariant
                j <= outputs@.len(),
                self.registrar.producers@.len() == self.nvars(),
                places_below(outputs@, self.nvars()),
                forall|i: int|
                    0 <= i < j ==> self.producer((#[trigger] outputs@[i]).0 as int)
                        == Producer::Unannounced,
            decreases outputs@.len() - j,
        {
            if self.registrar.producers[outputs[j].0] != Producer::Unannounced {
                return false;
            }
            j = j + 1;
        }
        true
    }

    /// Tells whether `add_resolution` may be called with these keys, and
    /// if not, the first rule broken.
    pub fn check_resolution(&self, inputs: &[Place], outputs: &[Place]) -> (r: Result<
        (),
        ResolverError,
    >)
        requires
            self.wf(),
        ensures
            r is Ok <==> self.can_register(inputs@, outputs@),
            r == Err::<(), ResolverError>(ResolverError::RegistrationComplete) <==> self.registration_complete,
            r == Err::<(), ResolverError>(ResolverError::TooManyResolutions) <==> !self.registration_complete
                && self.recs().len() >= MAX_RESOLVERS,
            r == Err::<(), ResolverError>(ResolverError::KeyOutOfRange) <==> !self.registration_complete
                && self.recs().len() < MAX_RESOLVERS && !(places_below(inputs@, self.nvars())
                && places_below(outputs@, self.nvars())),
            r == Err::<(), ResolverError>(ResolverError::AlreadyTracked) <==> !self.registration_complete
                && self.recs().len() < MAX_RESOLVERS && places_below(inputs@, self.nvars())
                && places_below(outputs@, self.nvars()) && exists|j: int|
                0 <= j < outputs@.len() && self.producer((#[trigger] outputs@[j]).0 as int)
                    != Producer::Unannounced,
            r == Err::<(), ResolverError>(ResolverError::DuplicateOutput) <==> !self.registration_complete
                && self.recs().len() < MAX_RESOLVERS && places_below(inputs@, self.nvars())
                && places_below(outputs@, self.nvars()) && (forall|j: int|
                0 <= j < outputs@.len() ==> self.producer((#[trigger] outputs@[j]).0 as int)
                    == Producer::Unannounced) && !outputs@.no_duplicates(),
            r == Err::<(), ResolverError>(ResolverError::PlaybackDiverged) <==> !self.registration_complete
                && self.recs().len() < MAX_RESOLVERS && places_below(inputs@, self.nvars())
                && places_below(outputs@, self.nvars()) && (forall|j: int|
                0 <= j < outputs@.len() ==> self.producer((#[trigger] outputs@[j]).0 as int)
                    == Producer::Unannounced) && outputs@.no_duplicates() && self.mode
                == SortingMode::Playback && self.recs().len() >= self.record.items@.len(),
    {
        let n = self.common.values.variables.len();
        if self.registration_complete {
            Err(ResolverError::RegistrationComplete)
        } else if self.common.resolvers.records.len() >= MAX_RESOLVERS {
            Err(ResolverError::TooManyResolutions)
        } else if !all_below(inputs, n) || !all_below(outputs, n) {
            Err(ResolverError::KeyOutOfRange)
        } else if !self.all_unannounced(outputs) {
            Err(ResolverError::AlreadyTracked)
        } else if !all_distinct(outputs) {
            Err(ResolverError::DuplicateOutput)
        } else if self.mode == SortingMode::Playback && self.common.resolvers.records.len()
            >= self.record.items.len() {
            Err(ResolverError::PlaybackDiverged)
        } else {
            Ok(())
        }
    }

    /// Tells whether `get_awaiter` may be called with these keys, and if
    /// not, the first rule broken.
    pub fn check_awaiter(&self, vars: &[Place]) -> (r: Result<(), ResolverError>)
        requires
            self.wf(),
        ensures
            r is Ok <==> self.can_await(vars@),
            r == Err::<(), ResolverError>(ResolverError::NothingToAwait) <==> vars@.len() == 0,
            r == Err::<(), ResolverError>(ResolverError::AwaitingHole) <==> vars@.len() > 0 && exists|j: int|
                0 <= j < vars@.len() && (#[trigger] vars@[j]).0 > self.common.values.max_tracked,
            r == Err::<(), ResolverError>(ResolverError::AwaitingDefaultTracker) <==> vars@.len() > 0
                && (forall|j: int|
                0 <= j < vars@.len() ==> (#[trigger] vars@[j]).0 <= self.common.values.max_tracked)
                && (forall|j: int|
                0 <= j < vars@.len() ==> self.tracker((#[trigger] vars@[j]).0 as int) == 0),
    {
        if vars.len() == 0 {
            return Err(ResolverError::NothingToAwait);
        }
        let mut j: usize = 0;
        while j < vars.len()
            invariant
                j <= vars@.len(),
                self.wf(),
                forall|i: int|
                    0 <= i < j ==> (#[trigger] vars@[i]).0 <= self.common.values.max_tracked,
            decreases vars@.len() - j,
        {
            if vars[j].0 as i64 > self.common.values.max_tracked || vars[j].0 >= self.common.values.variables.len() {
                proof {
                    if vars@[j as int].0 < self.nvars() {
                        assert(vars@[j as int].0 > self.common.values.max_tracked);
                    } else {
                        assert(vars@[j as int].0 > self.common.values.max_tracked);
                    }
                }
                return Err(ResolverError::AwaitingHole);
            }
            j = j + 1;
        }
        proof {
            assert forall|i: int| 0 <= i < vars@.len() implies (#[trigger] vars@[i]).0 < self.nvars() by {
                assert(vars@[i].0 <= self.common.values.max_tracked);
            }
        }
        let t = self.common.values.max_tracker(vars);
        if t == 0 {
            proof {
                assert forall|i: int| 0 <= i < vars@.len() implies self.tracker((#[trigger] vars@[i]).0 as int) == 0 by {
                    assert(self.md(vars@[i].0 as int).tracker.0 <= t);
                }
            }
            Err(ResolverError::AwaitingDefaultTracker)
        } else {
            Ok(())
        }
    }

    /// Before registration ends in playback mode: every registration the
    /// recording counted has arrived and been sequenced.
    pub fn check_playback_complete(&self) -> (r: Result<(), ResolverError>)
        ensures
            r is Ok <==> self.mode == SortingMode::Record || (self.pending().len() == 0
                && self.recs().len() == self.record.registrations_count),
            r is Err ==> r == Err::<(), ResolverError>(ResolverError::PlaybackIncomplete),
    {
        if self.mode == SortingMode::Record || (self.registrar.pending.len() == 0
            && self.common.resolvers.records.len() == self.record.registrations_count) {
            Ok(())
        } else {
            Err(ResolverError::PlaybackIncomplete)
        }
    }
}

} // verus!
