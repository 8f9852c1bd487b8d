use witness_resolver::{
    CircuitResolver, CircuitResolverOpts, Metadata, OrderIx, Place, ResolutionRecord,
    ResolverError, ResolverIx, ResolverIxType, Values,
};

fn new_core(max_variables: usize, desired_parallelism: u32) -> CircuitResolver<u64> {
    CircuitResolver::new(CircuitResolverOpts { max_variables, desired_parallelism }, 0, None)
}

fn run(core: &mut CircuitResolver<u64>, f: impl Fn(usize, &[u64]) -> Vec<u64>) {
    while let Some(job) = core.next_job() {
        let outs = f(job.registration, &job.inputs);
        core.complete_next(&outs);
    }
}

#[test]
fn opts_default_parallelism() {
    let opts = CircuitResolverOpts::new(77);
    assert_eq!(77, opts.max_variables);
    assert_eq!(4096, opts.desired_parallelism);
}

#[test]
fn resolver_ix_type_bit() {
    assert!(matches!(ResolverIx::new_resolver(8).get_type(), ResolverIxType::Resolver));
    assert!(matches!(ResolverIx::new_jump(8).get_type(), ResolverIxType::Jump));
    assert_eq!(9, ResolverIx::new_jump(8).0);
    assert_eq!(9, ResolverIx::new_jump(9).0);
    assert_eq!(8, ResolverIx(9).normalized());
    assert_eq!(8, ResolverIx(8).normalized());
}

#[test]
fn metadata_flags() {
    let mut md = Metadata::new(OrderIx(5));
    assert!(md.is_tracked());
    assert!(!md.is_resolved());
    md.mark_resolved();
    assert!(md.is_tracked());
    assert!(md.is_resolved());
    assert_eq!(OrderIx(5), md.tracker);
    let r = Metadata::new_resolved();
    assert!(r.is_tracked() && r.is_resolved());
    assert_eq!(0, r.tracker.0);
}

#[test]
fn linear_chain_resolves() {
    let mut core = new_core(10, 16);
    core.set_value(Place(0), 123);
    core.add_resolution(&[Place(0)], &[Place(1)]);
    core.add_resolution(&[Place(1)], &[Place(2)]);
    core.final_flush();
    run(&mut core, |_, ins| vec![ins[0]]);
    assert!(core.is_finished());
    assert_eq!(Some(123), core.try_get_value(Place(2)));
}

#[test]
fn deep_linear_chain() {
    let n = 1024;
    let mut core = new_core(n + 1, 16);
    core.set_value(Place(0), 1);
    for i in 0..n {
        core.add_resolution(&[Place(i)], &[Place(i + 1)]);
    }
    core.final_flush();
    run(&mut core, |_, ins| vec![ins[0] + 1]);
    for i in 0..=n {
        assert_eq!(Some(i as u64 + 1), core.try_get_value(Place(i)));
    }
}

#[test]
fn trackers_grow_along_dependencies() {
    let mut core = new_core(10, 16);
    core.set_value(Place(0), 1);
    core.set_value(Place(1), 2);
    core.add_resolution(&[Place(0), Place(1)], &[Place(2)]);
    core.add_resolution(&[Place(2)], &[Place(3), Place(4)]);
    assert_eq!(0, core.tracker_of(Place(0)).0);
    assert_eq!(1, core.tracker_of(Place(2)).0);
    assert_eq!(2, core.tracker_of(Place(3)).0);
    assert_eq!(2, core.tracker_of(Place(4)).0);
    assert!(core.tracker_of(Place(3)) .0 > core.tracker_of(Place(2)).0);
}

#[test]
fn pending_resolution_waits_for_inputs() {
    let mut core = new_core(10, 16);
    core.add_resolution(&[Place(0)], &[Place(1)]);
    assert!(!core.key_is_tracked(Place(1)));
    core.set_value(Place(0), 4);
    assert!(core.key_is_tracked(Place(1)));
    assert_eq!(None, core.try_get_value(Place(1)));
    core.flush();
    run(&mut core, |_, ins| vec![ins[0] * 10]);
    assert_eq!(Some(40), core.try_get_value(Place(1)));
}

#[test]
fn record_lists_sequencing_order() {
    let mut core = new_core(10, 16);
    core.set_value(Place(3), 7);
    core.add_resolution(&[Place(2), Place(3)], &[Place(4)]);
    core.add_resolution(&[Place(0), Place(1)], &[Place(2)]);
    core.set_value(Place(1), 5);
    core.set_value(Place(0), 3);
    core.final_flush();
    let rec = core.retrieve_sequence().clone();
    assert_eq!(2, rec.registrations_count);
    assert_eq!(3, rec.values_count);
    assert_eq!(2, rec.items.len());
    assert_eq!(0, rec.items[0].added_at);
    assert_eq!(1, rec.items[0].accepted_at);
    assert_eq!(1, rec.items[1].added_at);
    assert_eq!(0, rec.items[1].accepted_at);
    assert_eq!(OrderIx(1), rec.items[0].order_ix);
}

#[test]
fn playback_follows_recorded_turns() {
    let mut core = new_core(10, 16);
    core.set_value(Place(0), 1);
    core.add_resolution(&[Place(0)], &[Place(1)]);
    core.add_resolution(&[Place(0)], &[Place(2)]);
    core.final_flush();
    let mut rec = core.retrieve_sequence().clone();
    // swap the turns: the second registration goes first
    rec.items[0].accepted_at = 1;
    rec.items[1].accepted_at = 0;
    let opts = CircuitResolverOpts { max_variables: 10, desired_parallelism: 16 };
    let mut play: CircuitResolver<u64> = CircuitResolver::new(opts, 0, Some(rec));
    play.set_value(Place(0), 1);
    play.add_resolution(&[Place(0)], &[Place(1)]);
    assert!(!play.key_is_tracked(Place(1)));
    play.add_resolution(&[Place(0)], &[Place(2)]);
    assert_eq!(1, play.tracker_of(Place(2)).0);
    assert_eq!(2, play.tracker_of(Place(1)).0);
}

#[test]
fn chunks_commit_at_parallelism() {
    let mut core = new_core(10, 2);
    core.set_value(Place(0), 1);
    core.add_resolution(&[Place(0)], &[Place(1)]);
    assert!(core.next_job().is_none());
    core.add_resolution(&[Place(0)], &[Place(2)]);
    let job = core.next_job().unwrap();
    assert_eq!(0, job.position);
    assert_eq!(vec![1u64], job.inputs);
}

#[test]
fn dependency_closes_chunk() {
    let mut core = new_core(10, 16);
    core.set_value(Place(0), 1);
    core.add_resolution(&[Place(0)], &[Place(1)]);
    assert!(core.next_job().is_none());
    core.add_resolution(&[Place(1)], &[Place(2)]);
    let job = core.next_job().unwrap();
    assert_eq!(0, job.registration);
}

#[test]
fn final_flush_is_idempotent() {
    let mut core = new_core(10, 16);
    core.set_value(Place(0), 1);
    core.add_resolution(&[Place(0)], &[Place(1)]);
    core.final_flush();
    run(&mut core, |_, ins| vec![ins[0]]);
    assert!(core.is_finished());
    core.final_flush();
    assert!(core.is_finished());
    assert_eq!(Some(1), core.try_get_value(Place(1)));
}

#[test]
fn awaiter_reached_only_after_run() {
    let mut core = new_core(10, 16);
    core.set_value(Place(0), 1);
    core.add_resolution(&[Place(0)], &[Place(1)]);
    let t = core.get_awaiter(&[Place(0), Place(1)]);
    assert_eq!(1, t.0);
    assert!(!core.is_reached(t));
    run(&mut core, |_, ins| vec![ins[0]]);
    assert!(core.is_reached(t));
    assert_eq!(1, core.get_value_unchecked(Place(1)));
}

#[test]
fn set_value_errors() {
    let mut core = new_core(4, 16);
    assert_eq!(Err(ResolverError::KeyOutOfRange), core.check_set_value(Place(4)));
    core.set_value(Place(0), 1);
    assert_eq!(Err(ResolverError::AlreadyTracked), core.check_set_value(Place(0)));
    core.add_resolution(&[Place(0)], &[Place(1)]);
    assert_eq!(Err(ResolverError::AlreadyTracked), core.check_set_value(Place(1)));
    core.final_flush();
    assert_eq!(Err(ResolverError::RegistrationComplete), core.check_set_value(Place(2)));
}

#[test]
fn resolution_errors() {
    let mut core = new_core(4, 16);
    core.set_value(Place(0), 1);
    assert_eq!(Ok(()), core.check_resolution(&[Place(0)], &[Place(1)]));
    assert_eq!(
        Err(ResolverError::KeyOutOfRange),
        core.check_resolution(&[Place(9)], &[Place(1)])
    );
    assert_eq!(
        Err(ResolverError::AlreadyTracked),
        core.check_resolution(&[Place(1)], &[Place(0)])
    );
    assert_eq!(
        Err(ResolverError::DuplicateOutput),
        core.check_resolution(&[Place(0)], &[Place(1), Place(1)])
    );
    core.final_flush();
    assert_eq!(
        Err(ResolverError::RegistrationComplete),
        core.check_resolution(&[Place(0)], &[Place(2)])
    );
}

#[test]
fn playback_divergence_is_reported() {
    let mut core = new_core(4, 16);
    core.set_value(Place(0), 1);
    core.final_flush();
    let rec = core.retrieve_sequence().clone();
    let opts = CircuitResolverOpts { max_variables: 4, desired_parallelism: 16 };
    let play: CircuitResolver<u64> = CircuitResolver::new(opts, 0, Some(rec));
    assert_eq!(
        Err(ResolverError::PlaybackDiverged),
        play.check_resolution(&[Place(0)], &[Place(1)])
    );
}

#[test]
fn awaiter_errors() {
    let mut core = new_core(4, 16);
    assert_eq!(Err(ResolverError::NothingToAwait), core.check_awaiter(&[]));
    core.set_value(Place(0), 1);
    assert_eq!(Err(ResolverError::AwaitingDefaultTracker), core.check_awaiter(&[Place(0)]));
    assert_eq!(Err(ResolverError::AwaitingHole), core.check_awaiter(&[Place(2)]));
    core.add_resolution(&[Place(0)], &[Place(1)]);
    assert_eq!(Ok(()), core.check_awaiter(&[Place(0), Place(1)]));
    assert!(!ResolverError::AwaitingHole.message().is_empty());
}

#[test]
fn value_table_tracks_prefix() {
    let mut values: Values<u64> = Values::new(5, 0);
    assert_eq!(-1, values.max_tracked);
    values.set_value(Place(1), 11);
    assert_eq!(-1, values.max_tracked);
    values.set_value(Place(0), 10);
    assert_eq!(1, values.max_tracked);
    values.track_values(&[Place(3), Place(2)], OrderIx(4));
    assert_eq!(3, values.max_tracked);
    let (v, md) = *values.get_item_ref(Place(2));
    assert_eq!(0, v);
    assert!(md.is_tracked() && !md.is_resolved());
    assert_eq!(OrderIx(4), md.tracker);
    values.resolve(Place(2), 22);
    let (v, md) = *values.get_item_ref(Place(2));
    assert_eq!(22, v);
    assert!(md.is_resolved());
    assert_eq!(4, values.max_tracker(&[Place(0), Place(2), Place(1)]));
    assert_eq!(0, values.max_tracker(&[]));
}

#[test]
fn resolution_record_new_is_blank() {
    let rec = ResolutionRecord::new(3, 4, 2);
    assert_eq!(3, rec.registrations_count);
    assert_eq!(4, rec.values_count);
    assert_eq!(2, rec.items.len());
    assert_eq!(0, rec.items[1].accepted_at);
}

#[test]
fn playback_incomplete_is_reported() {
    let mut core = new_core(4, 16);
    core.set_value(Place(0), 1);
    core.add_resolution(&[Place(0)], &[Place(1)]);
    core.add_resolution(&[Place(1)], &[Place(2)]);
    assert_eq!(Ok(()), core.check_playback_complete());
    core.final_flush();
    let rec = core.retrieve_sequence().clone();
    assert_eq!(2, rec.registrations_count);
    assert_eq!(1, rec.values_count);

    let opts = CircuitResolverOpts { max_variables: 4, desired_parallelism: 16 };
    let mut play: CircuitResolver<u64> = CircuitResolver::new(opts, 0, Some(rec));
    play.set_value(Place(0), 1);
    play.add_resolution(&[Place(0)], &[Place(1)]);
    assert_eq!(Err(ResolverError::PlaybackIncomplete), play.check_playback_complete());
    play.add_resolution(&[Place(1)], &[Place(2)]);
    assert_eq!(Ok(()), play.check_playback_complete());
    assert!(!ResolverError::PlaybackIncomplete.message().is_empty());
}

#[test]
fn mark_resolved_twice_keeps_metadata() {
    let mut md = Metadata::new(OrderIx(3));
    md.mark_resolved();
    let once = md.data;
    md.mark_resolved();
    assert_eq!(once, md.data);
    assert_eq!(OrderIx(3), md.tracker);
}
