use vstd::prelude::*;

use crate::primitives::Place;
use crate::resolver::{CircuitResolver, Producer, SortingMode};

verus! {

/// Every output of a sequenced resolution carries a larger stamp than any of
/// its inputs.
pub proof fn lemma_output_tracker_exceeds_inputs<V: Copy>(
    r: &CircuitResolver<V>,
    k: int,
    i: int,
    o: int,
)
    requires
        r.wf(),
        0 <= k < r.items().len(),
        0 <= i < r.inputs_of(r.reg_at(k)).len(),
        0 <= o < r.outputs_of(r.reg_at(k)).len(),
    ensures
        r.tracker(r.outputs_of(r.reg_at(k))[o].0 as int) > r.tracker(
            r.inputs_of(r.reg_at(k))[i].0 as int,
        ),
{
    let _ = r.inputs_of(r.reg_at(k))[i];
    let _ = r.outputs_of(r.reg_at(k))[o];
}

/// A key is resolved exactly when it is tracked and the window has run past
/// its stamp; so `try_get_value` answers `None` until the window runs its
/// producer and `Some` from then on.
pub proof fn lemma_resolved_iff_run<V: Copy>(r: &CircuitResolver<V>, p: Place)
    requires
        r.wf(),
        p.0 < r.nvars(),
    ensures
        r.is_resolved(p.0 as int) <==> r.is_tracked(p.0 as int) && r.tracker(p.0 as int)
            <= r.processed(),
{
    let _ = r.is_resolved(p.0 as int);
}

/// In record mode a registration whose inputs are all tracked has been
/// sequenced: its outputs are tracked, so the window will produce them.
pub proof fn lemma_ready_registrations_sequenced<V: Copy>(r: &CircuitResolver<V>, n: int)
    requires
        r.wf(),
        r.mode == SortingMode::Record,
        0 <= n < r.recs().len(),
        r.ready(n),
    ensures
        r.outputs_tracked(n),
{
    if r.pending().contains(n as usize) {
        let i = choose|i: int| 0 <= i < r.pending().len() && r.pending()[i] == n as usize;
        assert(!r.ready(r.pending()[i] as int));
    }
}

/// Once registration is over and the window has run every entry, every
/// tracked key is resolved; in record mode, so is every output of every
/// resolution whose inputs are all tracked.
pub proof fn lemma_finished_resolves_all<V: Copy>(r: &CircuitResolver<V>)
    requires
        r.wf(),
        r.registration_complete,
        r.processed() == r.size(),
    ensures
        forall|p: int| 0 <= p < r.nvars() && r.is_tracked(p) ==> #[trigger] r.is_resolved(p),
        r.mode == SortingMode::Record ==> forall|n: int, j: int|
            0 <= n < r.recs().len() && r.ready(n) && 0 <= j < r.outputs_of(n).len()
                ==> r.is_resolved(#[trigger] r.outputs_of(n)[j].0 as int),
        r.pending().len() == 0 ==> forall|n: int, j: int|
            0 <= n < r.recs().len() && 0 <= j < r.outputs_of(n).len() ==> r.is_resolved(
                #[trigger] r.outputs_of(n)[j].0 as int,
            ),
{
    if r.pending().len() == 0 {
        assert forall|n: int, j: int|
            0 <= n < r.recs().len() && 0 <= j < r.outputs_of(n).len() implies r.is_resolved(
            #[trigger] r.outputs_of(n)[j].0 as int,
        ) by {
            assert(!r.pending().contains(n as usize));
            assert(r.outputs_tracked(n));
            r.lemma_record_places(n);
            let p = r.outputs_of(n)[j].0 as int;
            assert(r.is_tracked(p));
            if r.tracker(p) > 0 {
                assert(r.tracker(p) <= r.items().len());
            }
        }
    }
    assert forall|p: int| 0 <= p < r.nvars() && r.is_tracked(p) implies #[trigger] r.is_resolved(p) by {
        if r.tracker(p) > 0 {
            assert(r.tracker(p) <= r.items().len());
        }
    }
    if r.mode == SortingMode::Record {
        assert forall|n: int, j: int|
            0 <= n < r.recs().len() && r.ready(n) && 0 <= j < r.outputs_of(n).len() implies r.is_resolved(
            #[trigger] r.outputs_of(n)[j].0 as int,
        ) by {
            if r.pending().contains(n as usize) {
                let i = choose|i: int| 0 <= i < r.pending().len() && r.pending()[i] == n as usize;
                assert(!r.ready(r.pending()[i] as int));
            }
            assert(r.outputs_tracked(n));
            r.lemma_record_places(n);
            let p = r.outputs_of(n)[j].0 as int;
            assert(r.is_tracked(p));
            if r.tracker(p) > 0 {
                assert(r.tracker(p) <= r.items().len());
            }
        }
    }
}

/// Record then playback: when the recording run sequenced every registration
/// it received, a playback run given its recording and the same registrations
/// sequences, at each position it has reached, the registration the
/// recording run sequenced there, and stamps its outputs alike.
pub proof fn lemma_playback_replays_recording<V: Copy>(
    rec: &CircuitResolver<V>,
    play: &CircuitResolver<V>,
    k: int,
)
    requires
        rec.wf(),
        play.wf(),
        rec.mode == SortingMode::Record,
        play.mode == SortingMode::Playback,
        play.record.items@ == rec.record.items@,
        rec.pending().len() == 0,
        play.recs().len() <= rec.recs().len(),
        forall|m: int| 0 <= m < play.recs().len() ==> #[trigger] play.recs()[m] == rec.recs()[m],
        0 <= k < play.items().len(),
    ensures
        k < rec.items().len(),
        play.reg_at(k) == rec.reg_at(k),
        forall|j: int|
            0 <= j < play.outputs_of(play.reg_at(k)).len() ==> {
                let p = (#[trigger] play.outputs_of(play.reg_at(k))[j]).0 as int;
                play.tracker(p) == k + 1 && rec.tracker(p) == k + 1
            },
{
    let m = play.reg_at(k);
    assert(play.items()[k].value.0 / 2 < play.recs().len());
    assert(play.record.items@[m].accepted_at == k);
    assert(!rec.pending().contains(m as usize));
    let t = rec.record.items@[m].accepted_at as int;
    assert(rec.reg_at(t) == m);
    assert(play.recs()[m] == rec.recs()[m]);
    assert forall|j: int| 0 <= j < play.outputs_of(play.reg_at(k)).len() implies {
        let p = (#[trigger] play.outputs_of(play.reg_at(k))[j]).0 as int;
        play.tracker(p) == k + 1 && rec.tracker(p) == k + 1
    } by {
        assert(play.outputs_of(m)[j] == rec.outputs_of(rec.reg_at(k))[j]);
    }
}

/// Entries of one chunk may run in parallel: no entry reads a key that an
/// earlier entry of its chunk writes.
pub proof fn lemma_chunk_entries_independent<V: Copy>(
    r: &CircuitResolver<V>,
    k1: int,
    k2: int,
    i: int,
    o: int,
)
    requires
        r.wf(),
        0 <= k1 < k2 < r.items().len(),
        r.guide.chunk_of@[k2] <= k1,
        0 <= i < r.inputs_of(r.reg_at(k2)).len(),
        0 <= o < r.outputs_of(r.reg_at(k1)).len(),
    ensures
        r.inputs_of(r.reg_at(k2))[i] != r.outputs_of(r.reg_at(k1))[o],
{
    let _ = r.inputs_of(r.reg_at(k2))[i];
    let _ = r.outputs_of(r.reg_at(k1))[o];
    let _ = r.guide.chunk_of@[k2];
}

/// A key that was never assigned nor named as an output has no value:
/// `try_get_value` answers `None` for it.
pub proof fn lemma_unannounced_is_unresolved<V: Copy>(r: &CircuitResolver<V>, p: Place)
    requires
        r.wf(),
        p.0 < r.nvars(),
        r.producer(p.0 as int) == Producer::Unannounced,
    ensures
        !r.is_tracked(p.0 as int),
        !r.is_resolved(p.0 as int),
{
    let _ = r.is_tracked(p.0 as int);
    let _ = r.is_resolved(p.0 as int);
}

/// Record then playback, at the end of both runs: when each run has
/// sequenced every registration it received, and both received the same
/// registrations, the two orders are the same entry for entry, and every
/// output of every registration is resolved in both runs with the same stamp.
pub proof fn lemma_finished_playback_matches_recording<V: Copy>(
    rec: &CircuitResolver<V>,
    play: &CircuitResolver<V>,
)
    requires
        rec.wf(),
        play.wf(),
        rec.mode == SortingMode::Record,
        play.mode == SortingMode::Playback,
        play.record.items@ == rec.record.items@,
        rec.pending().len() == 0,
        play.pending().len() == 0,
        play.recs() == rec.recs(),
        rec.registration_complete && rec.processed() == rec.size(),
        play.registration_complete && play.processed() == play.size(),
    ensures
        play.items().len() == rec.items().len(),
        forall|k: int| 0 <= k < play.items().len() ==> #[trigger] play.reg_at(k) == rec.reg_at(k),
        forall|n: int, j: int|
            0 <= n < rec.recs().len() && 0 <= j < rec.outputs_of(n).len() ==> {
                let p = (#[trigger] rec.outputs_of(n)[j]).0 as int;
                &&& rec.is_resolved(p)
                &&& play.is_resolved(p)
                &&& play.tracker(p) == rec.tracker(p)
            },
{
    lemma_finished_resolves_all(rec);
    lemma_finished_resolves_all(play);
    assert forall|k: int| 0 <= k < play.items().len() implies #[trigger] play.reg_at(k) == rec.reg_at(
        k,
    ) by {
        lemma_playback_replays_recording(rec, play, k);
    }
    assert forall|n: int, j: int|
        0 <= n < rec.recs().len() && 0 <= j < rec.outputs_of(n).len() implies {
            let p = (#[trigger] rec.outputs_of(n)[j]).0 as int;
            &&& rec.is_resolved(p)
            &&& play.is_resolved(p)
            &&& play.tracker(p) == rec.tracker(p)
        } by {
        let p = rec.outputs_of(n)[j].0 as int;
        assert(play.outputs_of(n)[j] == rec.outputs_of(n)[j]);
        assert(play.is_resolved(play.outputs_of(n)[j].0 as int));
        assert(!rec.pending().contains(n as usize));
        let k = rec.record.items@[n].accepted_at as int;
        assert(rec.reg_at(k) == n);
        assert(rec.outputs_of(rec.reg_at(k))[j] == rec.outputs_of(n)[j]);
        assert(rec.tracker(p) == k + 1);
        assert(play.reg_at(k) == rec.reg_at(k)) by {
            lemma_playback_replays_recording(rec, play, k);
        }
        assert(play.outputs_of(play.reg_at(k))[j] == rec.outputs_of(n)[j]);
        assert(play.tracker(p) == k + 1);
    }
}

/// The window starts out, and any call that keeps its progress keeps it,
/// faithful to `eval`: the entries it ran and the keys they read are left
/// alone.
pub proof fn lemma_runs_as_kept<V: Copy>(
    a: &CircuitResolver<V>,
    b: &CircuitResolver<V>,
    eval: spec_fn(int, Seq<V>) -> Seq<V>,
)
    requires
        a.wf(),
        b.wf(),
        a.runs_as(eval),
        b.processed() == a.processed(),
        b.nvars() == a.nvars(),
        a.items().len() <= b.items().len(),
        forall|k: int| 0 <= k < a.items().len() ==> #[trigger] b.items()[k] == a.items()[k],
        a.recs().len() <= b.recs().len(),
        forall|m: int| 0 <= m < a.recs().len() ==> #[trigger] b.recs()[m] == a.recs()[m],
        forall|p: int|
            0 <= p < a.nvars() && a.is_tracked(p) ==> #[trigger] b.common.values.variables@[p]
                == a.common.values.variables@[p],
    ensures
        b.runs_as(eval),
{
    assert forall|k: int, j: int|
        0 <= k < b.processed() && 0 <= j < b.outputs_of(b.reg_at(k)).len() implies b.val(
            (#[trigger] b.outputs_of(b.reg_at(k))[j]).0 as int,
        ) == eval(b.reg_at(k), b.input_values(b.reg_at(k)))[j] by {
        assert(b.items()[k] == a.items()[k]);
        let n = a.reg_at(k);
        assert(a.items()[k].value.0 / 2 < a.recs().len());
        assert(b.recs()[n] == a.recs()[n]);
        a.lemma_record_places(n);
        let p = a.outputs_of(n)[j].0 as int;
        assert(a.outputs_of(a.reg_at(k))[j] == a.outputs_of(n)[j]);
        assert(a.is_tracked(p));
        assert(b.common.values.variables@[p] == a.common.values.variables@[p]);
        assert(b.input_values(n) =~= a.input_values(n)) by {
            assert forall|i: int| 0 <= i < a.inputs_of(n).len() implies b.val(
                b.inputs_of(n)[i].0 as int,
            ) == a.val(a.inputs_of(n)[i].0 as int) by {
                let q = a.inputs_of(n)[i].0 as int;
                assert(a.inputs_of(a.reg_at(k))[i] == a.inputs_of(n)[i]);
                assert(a.is_tracked(q));
                assert(b.common.values.variables@[q] == a.common.values.variables@[q]);
            }
        }
    }
}

/// One window step keeps it faithful to `eval` when the values it stored
/// for the entry are what `eval` gives for the entry's inputs.
pub proof fn lemma_runs_as_step<V: Copy>(
    a: &CircuitResolver<V>,
    b: &CircuitResolver<V>,
    eval: spec_fn(int, Seq<V>) -> Seq<V>,
)
    requires
        a.wf(),
        b.wf(),
        a.runs_as(eval),
        a.processed() < a.size(),
        b.processed() == a.processed() + 1,
        b.nvars() == a.nvars(),
        b.items() == a.items(),
        b.recs() == a.recs(),
        forall|j: int|
            0 <= j < a.outputs_of(a.reg_at(a.processed() as int)).len() ==> b.val(
                (#[trigger] a.outputs_of(a.reg_at(a.processed() as int))[j]).0 as int,
            ) == eval(a.reg_at(a.processed() as int), a.input_values(a.reg_at(a.processed() as int)))[j],
        forall|p: int|
            0 <= p < a.nvars() && a.is_resolved(p) ==> #[trigger] b.common.values.variables@[p]
                == a.common.values.variables@[p],
    ensures
        b.runs_as(eval),
{
    assert forall|k: int, j: int|
        0 <= k < b.processed() && 0 <= j < b.outputs_of(b.reg_at(k)).len() implies b.val(
            (#[trigger] b.outputs_of(b.reg_at(k))[j]).0 as int,
        ) == eval(b.reg_at(k), b.input_values(b.reg_at(k)))[j] by {
        let n = a.reg_at(k);
        a.lemma_record_places(n);
        assert(b.input_values(n) =~= a.input_values(n)) by {
            assert forall|i: int| 0 <= i < a.inputs_of(n).len() implies b.val(
                b.inputs_of(n)[i].0 as int,
            ) == a.val(a.inputs_of(n)[i].0 as int) by {
                let q = a.inputs_of(n)[i].0 as int;
                assert(a.inputs_of(a.reg_at(k))[i] == a.inputs_of(n)[i]);
                assert(a.is_tracked(q) && a.tracker(q) <= k);
                assert(a.is_resolved(q));
                assert(b.common.values.variables@[q] == a.common.values.variables@[q]);
            }
        }
        if k < a.processed() {
            let p = a.outputs_of(n)[j].0 as int;
            assert(a.outputs_of(a.reg_at(k))[j] == a.outputs_of(n)[j]);
            assert(a.is_resolved(p));
            assert(b.common.values.variables@[p] == a.common.values.variables@[p]);
        }
    }
}

/// Once the window has run everything and nothing waits, each registration's
/// outputs hold what `eval` gives for its inputs, which were resolved first:
/// the result of evaluating the registrations one by one in order.
pub proof fn lemma_finished_values_follow_eval<V: Copy>(
    r: &CircuitResolver<V>,
    eval: spec_fn(int, Seq<V>) -> Seq<V>,
)
    requires
        r.wf(),
        r.registration_complete,
        r.processed() == r.size(),
        r.pending().len() == 0,
        r.runs_as(eval),
    ensures
        forall|n: int, j: int|
            0 <= n < r.recs().len() && 0 <= j < r.outputs_of(n).len() ==> r.val(
                (#[trigger] r.outputs_of(n)[j]).0 as int,
            ) == eval(n, r.input_values(n))[j],
        forall|n: int, i: int|
            0 <= n < r.recs().len() && 0 <= i < r.inputs_of(n).len() ==> r.is_resolved(
                (#[trigger] r.inputs_of(n)[i]).0 as int,
            ),
{
    assert forall|n: int, j: int|
        0 <= n < r.recs().len() && 0 <= j < r.outputs_of(n).len() implies r.val(
            (#[trigger] r.outputs_of(n)[j]).0 as int,
        ) == eval(n, r.input_values(n))[j] by {
        assert(!r.pending().contains(n as usize));
        let k = r.record.items@[n].accepted_at as int;
        assert(r.reg_at(k) == n);
        assert(r.outputs_of(r.reg_at(k))[j] == r.outputs_of(n)[j]);
    }
    assert forall|n: int, i: int|
        0 <= n < r.recs().len() && 0 <= i < r.inputs_of(n).len() implies r.is_resolved(
            (#[trigger] r.inputs_of(n)[i]).0 as int,
        ) by {
        assert(!r.pending().contains(n as usize));
        let k = r.record.items@[n].accepted_at as int;
        assert(r.reg_at(k) == n);
        assert(r.inputs_of(r.reg_at(k))[i] == r.inputs_of(n)[i]);
        r.lemma_record_places(n);
    }
}

/// A recording run and its playback, both finished with nothing waiting,
/// given the same registrations, the same assignments and a window faithful
/// to the same `eval` in each.
pub open spec fn finished_replay<V: Copy>(
    rec: &CircuitResolver<V>,
    play: &CircuitResolver<V>,
    eval: spec_fn(int, Seq<V>) -> Seq<V>,
) -> bool {
    &&& rec.wf()
    &&& play.wf()
    &&& rec.mode == SortingMode::Record
    &&& play.mode == SortingMode::Playback
    &&& play.record.items@ == rec.record.items@
    &&& rec.pending().len() == 0
    &&& play.pending().len() == 0
    &&& play.recs() == rec.recs()
    &&& play.nvars() == rec.nvars()
    &&& play.registrar.producers@ == rec.registrar.producers@
    &&& forall|p: int|
        0 <= p < rec.nvars() && rec.producer(p) == Producer::Assigned ==> #[trigger] play.val(p)
            == rec.val(p)
    &&& rec.registration_complete && rec.processed() == rec.size()
    &&& play.registration_complete && play.processed() == play.size()
    &&& rec.runs_as(eval)
    &&& play.runs_as(eval)
}

proof fn lemma_replay_value_agrees<V: Copy>(
    rec: &CircuitResolver<V>,
    play: &CircuitResolver<V>,
    eval: spec_fn(int, Seq<V>) -> Seq<V>,
    p: int,
)
    requires
        finished_replay(rec, play, eval),
        0 <= p < rec.nvars(),
        rec.is_tracked(p),
    ensures
        play.is_resolved(p),
        play.val(p) == rec.val(p),
    decreases rec.tracker(p),
{
    lemma_finished_playback_matches_recording(rec, play);
    if rec.tracker(p) == 0 {
        assert(rec.producer(p) == Producer::Assigned);
        assert(play.producer(p) == Producer::Assigned);
    } else {
        let k = rec.tracker(p) - 1;
        let n = rec.reg_at(k);
        assert(rec.outputs_of(n).contains(Place(p as usize)));
        let j = choose|j: int| 0 <= j < rec.outputs_of(n).len() && rec.outputs_of(n)[j] == Place(p as usize);
        assert(rec.items()[k].value.0 / 2 < rec.recs().len());
        rec.lemma_record_places(n);
        assert(play.reg_at(k) == n);
        assert(rec.outputs_of(rec.reg_at(k))[j].0 == p);
        assert(play.outputs_of(play.reg_at(k))[j].0 == p);
        assert forall|i: int| 0 <= i < rec.inputs_of(n).len() implies play.val(
            rec.inputs_of(n)[i].0 as int,
        ) == rec.val(rec.inputs_of(n)[i].0 as int) by {
            let q = rec.inputs_of(n)[i].0 as int;
            assert(rec.inputs_of(rec.reg_at(k))[i] == rec.inputs_of(n)[i]);
            assert(rec.is_tracked(q) && rec.tracker(q) <= k);
            lemma_replay_value_agrees(rec, play, eval, q);
        }
        assert(play.input_values(n) =~= rec.input_values(n));
    }
}

/// Record then playback: with the same registrations and assignments and
/// the same resolution functions (`eval`), every key ends with the same
/// value in both runs, and the same keys are resolved.
pub proof fn lemma_replay_gives_same_values<V: Copy>(
    rec: &CircuitResolver<V>,
    play: &CircuitResolver<V>,
    eval: spec_fn(int, Seq<V>) -> Seq<V>,
)
    requires
        finished_replay(rec, play, eval),
    ensures
        forall|p: int| 0 <= p < rec.nvars() ==> #[trigger] play.is_resolved(p) == rec.is_resolved(p),
        forall|p: int|
            0 <= p < rec.nvars() && rec.is_resolved(p) ==> #[trigger] play.val(p) == rec.val(p),
{
    lemma_finished_playback_matches_recording(rec, play);
    assert forall|p: int| 0 <= p < rec.nvars() && rec.is_resolved(p) implies #[trigger] play.val(p)
        == rec.val(p) && play.is_resolved(p) by {
        lemma_replay_value_agrees(rec, play, eval, p);
    }
    assert forall|p: int| 0 <= p < rec.nvars() implies #[trigger] play.is_resolved(p)
        == rec.is_resolved(p) by {
        if rec.is_resolved(p) {
            lemma_replay_value_agrees(rec, play, eval, p);
        }
        if play.is_resolved(p) && play.tracker(p) == 0 {
            assert(play.producer(p) == Producer::Assigned);
            assert(rec.producer(p) == Producer::Assigned);
        } else if play.is_resolved(p) {
            let k = play.tracker(p) - 1;
            let n = play.reg_at(k);
            assert(play.outputs_of(n).contains(Place(p as usize)));
            let j = choose|j: int| 0 <= j < play.outputs_of(n).len() && play.outputs_of(n)[j] == Place(p as usize);
            assert(play.items()[k].value.0 / 2 < play.recs().len());
            assert(play.reg_at(k) == rec.reg_at(k));
            assert(rec.outputs_of(rec.reg_at(k))[j].0 == p);
        }
    }
}

} // verus!
