use std::cell::Cell;
use std::rc::Rc;

use witness_resolver::{
    CircuitResolver, CircuitResolverOpts, OrderIx, Place, ResolutionRecord, ResolverError,
};

type Resolution = Box<dyn FnOnce(&[u64]) -> Vec<u64>>;

/// Drives the resolver core on the test thread: registrations go in, and the
/// window runs the committed entries one by one.
struct Harness {
    core: CircuitResolver<u64>,
    fns: Vec<Option<Resolution>>,
}

impl Harness {
    fn record(max_variables: usize, desired_parallelism: u32) -> Harness {
        let opts = CircuitResolverOpts { max_variables, desired_parallelism };
        Harness { core: CircuitResolver::new(opts, 0, None), fns: Vec::new() }
    }

    fn playback(max_variables: usize, desired_parallelism: u32, record: ResolutionRecord) -> Harness {
        let opts = CircuitResolverOpts { max_variables, desired_parallelism };
        Harness { core: CircuitResolver::new(opts, 0, Some(record)), fns: Vec::new() }
    }

    fn set_value(&mut self, key: usize, value: u64) {
        self.core.check_set_value(Place(key)).unwrap();
        self.core.set_value(Place(key), value);
    }

    fn add_resolution(
        &mut self,
        inputs: &[usize],
        outputs: &[usize],
        f: impl FnOnce(&[u64]) -> Vec<u64> + 'static,
    ) {
        let ins: Vec<Place> = inputs.iter().map(|&i| Place(i)).collect();
        let outs: Vec<Place> = outputs.iter().map(|&i| Place(i)).collect();
        self.core.check_resolution(&ins, &outs).unwrap();
        self.core.add_resolution(&ins, &outs);
        self.fns.push(Some(Box::new(f)));
    }

    fn run(&mut self) {
        while let Some(job) = self.core.next_job() {
            let f = self.fns[job.registration].take().unwrap();
            let outs = f(&job.inputs);
            self.core.complete_next(&outs);
        }
    }

    fn wait_till_resolved(&mut self) {
        self.core.final_flush();
        self.run();
        assert!(self.core.is_finished());
    }

    fn wait_for(&mut self, vars: &[usize]) -> OrderIx {
        let vs: Vec<Place> = vars.iter().map(|&i| Place(i)).collect();
        self.core.check_awaiter(&vs).unwrap();
        let t = self.core.get_awaiter(&vs);
        self.run();
        assert!(self.core.is_reached(t));
        t
    }

    fn get(&self, key: usize) -> u64 {
        self.core.try_get_value(Place(key)).unwrap()
    }

    fn try_get(&self, key: usize) -> Option<u64> {
        self.core.try_get_value(Place(key))
    }

    fn record_out(&self) -> ResolutionRecord {
        self.core.retrieve_sequence().clone()
    }
}

fn copy_fn(ins: &[u64]) -> Vec<u64> {
    vec![ins[0]]
}

fn double_fn(ins: &[u64]) -> Vec<u64> {
    vec![ins[0].wrapping_mul(2)]
}

fn mul_fn(ins: &[u64]) -> Vec<u64> {
    vec![ins[0].wrapping_mul(ins[1])]
}

fn tracks_values_populate(h: &mut Harness, limit: usize) {
    for i in 0..limit {
        h.set_value(i, i as u64);
    }
}

#[test]
fn tracks_values_record_mode() {
    let limit = 10;
    let mut h = Harness::record(10, 16);
    println!("Storage is ready");
    tracks_values_populate(&mut h, limit);
    for i in 0..limit {
        assert_eq!(i as u64, h.get(i));
    }
}

#[test]
fn tracks_values_playback_mode() {
    let limit = 10;
    let mut h = Harness::record(10, 16);
    tracks_values_populate(&mut h, limit);
    h.wait_till_resolved();
    let rec = h.record_out();

    let mut h = Harness::playback(10, 16, rec);
    tracks_values_populate(&mut h, limit);
    for i in 0..limit {
        assert_eq!(i as u64, h.get(i));
    }
}

fn resolves_populate(h: &mut Harness) -> (usize, usize) {
    h.set_value(0, 123);
    h.add_resolution(&[0], &[1], copy_fn);
    (0, 1)
}

#[test]
fn resolves_record_mode() {
    let mut h = Harness::record(100, 16);
    let (init_var, dep_var) = resolves_populate(&mut h);
    h.wait_till_resolved();
    assert_eq!(h.get(init_var), h.get(dep_var));
}

#[test]
fn resolves_playback_mode() {
    let mut h = Harness::record(100, 16);
    resolves_populate(&mut h);
    h.wait_till_resolved();
    let rec = h.record_out();
    println!("\n----- Recording finished -----\n");

    let mut h = Harness::playback(100, 16, rec);
    let (init_var, dep_var) = resolves_populate(&mut h);
    h.wait_till_resolved();
    assert_eq!(h.get(init_var), h.get(dep_var));
}

fn resolves_siblings_populate(h: &mut Harness) {
    h.set_value(0, 123);
    h.set_value(2, 321);
    h.add_resolution(&[0], &[1], double_fn);
    h.add_resolution(&[2], &[3], double_fn);
}

#[test]
fn resolves_siblings_record_mode() {
    let mut h = Harness::record(100, 16);
    resolves_siblings_populate(&mut h);
    h.wait_till_resolved();
    assert_eq!(h.get(0) * 2, h.get(1));
    assert_eq!(h.get(2) * 2, h.get(3));
    assert_eq!(246, h.get(1));
    assert_eq!(642, h.get(3));
}

#[test]
fn resolves_siblings_playback_mode() {
    let mut h = Harness::record(100, 16);
    resolves_siblings_populate(&mut h);
    h.wait_till_resolved();
    let rec = h.record_out();

    let mut h = Harness::playback(100, 16, rec);
    resolves_siblings_populate(&mut h);
    h.wait_till_resolved();
    assert_eq!(h.get(0) * 2, h.get(1));
    assert_eq!(h.get(2) * 2, h.get(3));
}

fn resolves_descendants_populate(h: &mut Harness) -> usize {
    h.set_value(0, 2);
    h.add_resolution(&[0], &[1], double_fn);
    h.add_resolution(&[1], &[2], double_fn);
    h.add_resolution(&[2], &[3], double_fn);
    3
}

#[test]
fn resolves_descendants_record_mode() {
    let mut h = Harness::record(100, 2);
    let dep_var3 = resolves_descendants_populate(&mut h);
    h.wait_till_resolved();
    assert_eq!(16, h.get(dep_var3));
}

#[test]
fn resolves_descendants_playback_mode() {
    let mut h = Harness::record(100, 2);
    resolves_descendants_populate(&mut h);
    h.wait_till_resolved();
    let rec = h.record_out();

    let mut h = Harness::playback(100, 2, rec);
    let dep_var3 = resolves_descendants_populate(&mut h);
    h.wait_till_resolved();
    assert_eq!(16, h.get(dep_var3));
}

#[test]
fn resolves_with_context() {
    let mut h = Harness::record(100, 16);
    h.set_value(0, 123);
    let ctx_var: u64 = 321;
    h.add_resolution(&[0], &[1], move |ins: &[u64]| vec![ins[0] + ctx_var]);
    h.wait_till_resolved();
    assert_eq!(444, h.get(1));
}

struct DroppedContext {
    times_invoked: Rc<Cell<u32>>,
    value: u64,
}

impl Drop for DroppedContext {
    fn drop(&mut self) {
        self.times_invoked.set(self.times_invoked.get() + 1);
    }
}

#[test]
fn resolves_and_drops_context_after() {
    let mut h = Harness::record(100, 16);
    h.set_value(0, 123);
    let times_invoked = Rc::new(Cell::new(0u32));
    let ctx = DroppedContext { times_invoked: times_invoked.clone(), value: 1 };
    h.add_resolution(&[0], &[1], move |ins: &[u64]| {
        let ctx = ctx;
        vec![ins[0] + ctx.value]
    });
    assert_eq!(0, times_invoked.get());
    h.wait_till_resolved();
    assert_eq!(1, times_invoked.get());
    assert_eq!(124, h.get(1));
}

fn populate(h: &mut Harness, limit: usize) {
    let mut var_idx = 0usize;
    for _ in 0..limit {
        let (a, b, c, d, e) = (var_idx, var_idx + 1, var_idx + 2, var_idx + 3, var_idx + 4);
        var_idx += 5;
        h.set_value(a, 1);
        h.set_value(b, 2);
        h.set_value(c, 3);
        h.add_resolution(&[a, b, c], &[d], |ins: &[u64]| vec![ins[0] + ins[1] + ins[2]]);
        h.add_resolution(&[c, d], &[e], |ins: &[u64]| vec![ins[0] * ins[1]]);
    }
}

#[test]
fn awaiter_returns_for_resolved_value_record_mode() {
    let limit = 1 << 13;
    let mut h = Harness::record(limit * 5, 2048);
    populate(&mut h, limit);
    while h.try_get(4).is_none() {
        h.core.flush();
        h.run();
    }
    h.wait_for(&[4]);
    assert_eq!(0x12, h.get(4));
}

#[test]
fn awaiter_returns_for_resolved_value_playback_mode() {
    let limit = 1 << 10;
    let mut h = Harness::record(limit * 5, 2048);
    populate(&mut h, limit);
    h.wait_till_resolved();
    let rec = h.record_out();

    let mut h = Harness::playback(limit * 5, 2048, rec);
    populate(&mut h, limit);
    h.wait_for(&[4]);
    assert_eq!(0x12, h.get(4));
}

#[test]
fn awaiter_returns_after_finish_record_mode() {
    let mut h = Harness::record(100, 16);
    h.set_value(0, 123);
    h.add_resolution(&[0], &[1], copy_fn);
    h.wait_till_resolved();
    h.wait_for(&[1]);
    assert_eq!(123, h.get(1));
}

#[test]
fn awaiter_returns_after_finish_playback_mode() {
    let mut h = Harness::record(100, 16);
    h.set_value(0, 123);
    h.add_resolution(&[0], &[1], copy_fn);
    h.wait_till_resolved();
    let rec = h.record_out();

    let mut h = Harness::playback(100, 16, rec);
    h.set_value(0, 123);
    h.add_resolution(&[0], &[1], copy_fn);
    h.wait_till_resolved();
    h.wait_for(&[1]);
    assert_eq!(123, h.get(1));
}

#[test]
fn awaiter_returns_for_unexpropriated() {
    let mut h = Harness::record(100, 16);
    h.set_value(0, 123);
    h.add_resolution(&[0], &[1], copy_fn);
    h.wait_for(&[1]);
    assert_eq!(123, h.get(1));
}

fn resolution_after_awaiter_populate(h: &mut Harness) {
    h.set_value(0, 123);
    h.add_resolution(&[0], &[1], copy_fn);
    h.wait_for(&[1]);
    h.add_resolution(&[1], &[2], copy_fn);
}

#[test]
fn resolution_after_awaiter_is_supported_record_mode() {
    let mut h = Harness::record(100, 16);
    resolution_after_awaiter_populate(&mut h);
    h.wait_till_resolved();
    assert_eq!(123, h.get(2));
}

#[test]
fn resolution_after_awaiter_is_supported_playback_mode() {
    let mut h = Harness::record(100, 16);
    resolution_after_awaiter_populate(&mut h);
    h.add_resolution(&[2], &[3], copy_fn);
    h.wait_till_resolved();
    let rec = h.record_out();

    let mut h = Harness::playback(100, 16, rec);
    resolution_after_awaiter_populate(&mut h);
    h.add_resolution(&[2], &[3], copy_fn);
    h.wait_till_resolved();
    assert_eq!(123, h.get(3));
}

fn single_copy_populate(h: &mut Harness) {
    h.set_value(0, 123);
    h.add_resolution(&[0], &[1], copy_fn);
}

#[test]
fn try_get_value_returns_none_before_resolve_record_mode() {
    let mut h = Harness::record(100, 16);
    single_copy_populate(&mut h);
    assert_eq!(None, h.try_get(1));
}

#[test]
fn try_get_value_returns_none_before_resolve_playback_mode() {
    let mut h = Harness::record(100, 16);
    single_copy_populate(&mut h);
    h.wait_till_resolved();
    let rec = h.record_out();

    let mut h = Harness::playback(100, 16, rec);
    single_copy_populate(&mut h);
    assert_eq!(None, h.try_get(1));
}

#[test]
fn try_get_value_returns_some_after_resolve_record_mode() {
    let mut h = Harness::record(100, 16);
    single_copy_populate(&mut h);
    h.wait_till_resolved();
    assert_eq!(Some(123), h.try_get(1));
}

#[test]
fn try_get_value_returns_some_after_resolve_playback_mode() {
    let mut h = Harness::record(100, 16);
    single_copy_populate(&mut h);
    h.wait_till_resolved();
    let rec = h.record_out();

    let mut h = Harness::playback(100, 16, rec);
    single_copy_populate(&mut h);
    h.wait_till_resolved();
    assert_eq!(Some(123), h.try_get(1));
}

#[test]
fn try_get_value_returns_some_after_wait_record_mode() {
    let mut h = Harness::record(100, 16);
    single_copy_populate(&mut h);
    h.wait_for(&[1]);
    assert_eq!(Some(123), h.try_get(1));
}

#[test]
fn try_get_value_returns_some_after_wait_playback_mode() {
    let mut h = Harness::record(100, 16);
    single_copy_populate(&mut h);
    h.wait_till_resolved();
    let rec = h.record_out();

    let mut h = Harness::playback(100, 16, rec);
    single_copy_populate(&mut h);
    h.wait_for(&[1]);
    assert_eq!(Some(123), h.try_get(1));
}

#[test]
fn try_get_value_returns_none_on_untracked() {
    let mut h = Harness::record(100, 16);
    single_copy_populate(&mut h);
    assert_eq!(None, h.try_get(2));
}

fn non_chronological_populate(h: &mut Harness) {
    h.set_value(3, 7);
    h.add_resolution(&[2, 3], &[4], mul_fn);
    h.add_resolution(&[0, 1], &[2], mul_fn);
    h.set_value(1, 5);
    h.set_value(0, 3);
}

#[test]
fn non_chronological_resolution_record_mode() {
    let mut h = Harness::record(100, 16);
    non_chronological_populate(&mut h);
    h.wait_till_resolved();
    let _record = h.record_out();
    assert_eq!(Some(105), h.try_get(4));
}

#[test]
fn non_chronological_resolution_playback_mode() {
    let mut h = Harness::record(100, 16);
    non_chronological_populate(&mut h);
    h.wait_till_resolved();
    let rec = h.record_out();

    let mut h = Harness::playback(100, 16, rec);
    non_chronological_populate(&mut h);
    h.wait_till_resolved();
    assert_eq!(Some(105), h.try_get(4));
}

fn correctness_simple_linear_populate(h: &mut Harness, limit: usize) {
    let mut var_idx = 0usize;
    let mut pa = var_idx;
    var_idx += 1;
    let mut pb = var_idx;
    var_idx += 1;
    h.set_value(pa, 1);
    h.set_value(pb, 2);
    for _ in 1..limit {
        let a = var_idx;
        var_idx += 1;
        let b = var_idx;
        var_idx += 1;
        h.add_resolution(&[pa], &[a], |ins: &[u64]| vec![ins[0] + 1]);
        pa = a;
        h.add_resolution(&[pb], &[b], |ins: &[u64]| vec![ins[0] + 1]);
        pb = b;
    }
}

fn correctness_simple_linear_check(h: &Harness, limit: usize) {
    for i in 0..limit {
        for j in 0..2 {
            let ix = i * 2 + j;
            let val = i + j + 1;
            assert_eq!(val as u64, h.get(ix), "Ix {}", ix);
        }
    }
}

#[test]
fn correctness_simple_linear_record_mode() {
    let limit = 1 << 10;
    let mut h = Harness::record(limit * 5, 32);
    correctness_simple_linear_populate(&mut h, limit);
    h.wait_till_resolved();
    correctness_simple_linear_check(&h, limit);
}

#[test]
fn correctness_simple_linear_playback_mode() {
    let limit = 1 << 10;
    let mut h = Harness::record(limit * 5, 32);
    correctness_simple_linear_populate(&mut h, limit);
    h.wait_till_resolved();
    let rec = h.record_out();

    let mut h = Harness::playback(limit * 5, 32, rec);
    correctness_simple_linear_populate(&mut h, limit);
    h.wait_till_resolved();
    correctness_simple_linear_check(&h, limit);
}
