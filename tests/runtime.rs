use reactive_core::reactive::{ReactiveError, Runtime};

/// Runs every scheduled computation; each run reads `signal` and records
/// the computation's handle and the value it saw.
fn flush_reading(rt: &mut Runtime, signal: usize, seen: &mut Vec<(usize, i64)>) {
    while let Some(c) = rt.next_to_run() {
        rt.begin_run(c).unwrap();
        let v = rt.read(signal).unwrap();
        seen.push((c, v));
        rt.end_run().unwrap();
    }
}

#[test]
fn batched_counter_display_runs_once_and_shows_three() {
    let mut rt = Runtime::new();
    let count = rt.create_signal(0);
    let display = rt.create_computation(None).unwrap();
    let mut seen = Vec::new();
    flush_reading(&mut rt, count, &mut seen);
    assert_eq!(seen, vec![(display, 0)]);

    rt.begin_batch();
    for _ in 0..3 {
        let n = rt.read(count).unwrap();
        rt.write(count, n + 1).unwrap();
        assert_eq!(rt.next_to_run(), None);
    }
    rt.end_batch().unwrap();
    flush_reading(&mut rt, count, &mut seen);
    assert_eq!(seen, vec![(display, 0), (display, 3)]);
}

#[test]
fn unbatched_counter_display_shows_each_value() {
    let mut rt = Runtime::new();
    let count = rt.create_signal(0);
    let display = rt.create_computation(None).unwrap();
    let mut seen = Vec::new();
    flush_reading(&mut rt, count, &mut seen);
    for _ in 0..3 {
        let n = rt.read(count).unwrap();
        rt.write(count, n + 1).unwrap();
        flush_reading(&mut rt, count, &mut seen);
    }
    assert_eq!(seen, vec![(display, 0), (display, 1), (display, 2), (display, 3)]);
}

#[test]
fn superseded_writes_are_never_observed() {
    let mut rt = Runtime::new();
    let s = rt.create_signal(1);
    let c = rt.create_computation(None).unwrap();
    let mut seen = Vec::new();
    flush_reading(&mut rt, s, &mut seen);
    rt.begin_batch();
    rt.write(s, 5).unwrap();
    rt.write(s, 7).unwrap();
    rt.write(s, 9).unwrap();
    rt.end_batch().unwrap();
    flush_reading(&mut rt, s, &mut seen);
    assert_eq!(seen, vec![(c, 1), (c, 9)]);
}

#[test]
fn writing_the_same_value_schedules_nothing() {
    let mut rt = Runtime::new();
    let s = rt.create_signal(4);
    let _c = rt.create_computation(None).unwrap();
    let mut seen = Vec::new();
    flush_reading(&mut rt, s, &mut seen);
    rt.write(s, 4).unwrap();
    assert_eq!(rt.next_to_run(), None);
}

#[test]
fn nested_batches_hold_until_the_outermost_ends() {
    let mut rt = Runtime::new();
    let s = rt.create_signal(0);
    let c = rt.create_computation(None).unwrap();
    let mut seen = Vec::new();
    flush_reading(&mut rt, s, &mut seen);
    rt.begin_batch();
    rt.begin_batch();
    rt.write(s, 1).unwrap();
    rt.end_batch().unwrap();
    assert_eq!(rt.next_to_run(), None);
    rt.end_batch().unwrap();
    assert_eq!(rt.next_to_run(), Some(c));
}

#[test]
fn stale_dependencies_are_dropped() {
    let mut rt = Runtime::new();
    let a = rt.create_signal(1);
    let b = rt.create_signal(2);
    let c = rt.create_computation(None).unwrap();
    assert_eq!(rt.next_to_run(), Some(c));
    rt.begin_run(c).unwrap();
    rt.read(a).unwrap();
    rt.read(b).unwrap();
    rt.end_run().unwrap();

    rt.write(a, 10).unwrap();
    assert_eq!(rt.next_to_run(), Some(c));
    rt.begin_run(c).unwrap();
    rt.read(b).unwrap();
    rt.end_run().unwrap();

    rt.write(a, 11).unwrap();
    assert_eq!(rt.next_to_run(), None);
    rt.write(b, 3).unwrap();
    assert_eq!(rt.next_to_run(), Some(c));
}

#[test]
fn derived_value_is_recomputed_before_its_reader() {
    let mut rt = Runtime::new();
    let count = rt.create_signal(1);
    let doubled = rt.create_signal(0);
    // Created first, so it has the lower handle.
    let display = rt.create_computation(None).unwrap();
    let double = rt.create_computation(Some(doubled)).unwrap();
    let mut log: Vec<(usize, i64)> = Vec::new();
    let mut run = |rt: &mut Runtime, log: &mut Vec<(usize, i64)>| {
        while let Some(c) = rt.next_to_run() {
            rt.begin_run(c).unwrap();
            if c == double {
                let n = rt.read(count).unwrap();
                rt.write(doubled, n * 2).unwrap();
                log.push((c, n * 2));
            } else {
                let n = rt.read(count).unwrap();
                let d = rt.read(doubled).unwrap();
                log.push((c, n + d));
            }
            rt.end_run().unwrap();
        }
    };
    run(&mut rt, &mut log);
    assert_eq!(log, vec![(display, 1), (double, 2), (display, 3)]);
    assert_eq!(rt.read(doubled), Ok(2));

    log.clear();
    rt.write(count, 5).unwrap();
    run(&mut rt, &mut log);
    assert_eq!(log, vec![(double, 10), (display, 15)]);
}

#[test]
fn reading_own_output_is_a_cycle() {
    let mut rt = Runtime::new();
    let out = rt.create_signal(0);
    let c = rt.create_computation(Some(out)).unwrap();
    rt.begin_run(c).unwrap();
    let v = rt.read(out).unwrap();
    rt.write(out, v + 1).unwrap();
    assert_eq!(rt.end_run(), Err(ReactiveError::Cycle(c, c)));
    // Cut off: it is not scheduled again.
    assert_eq!(rt.next_to_run(), None);
}

#[test]
fn disposed_signal_is_a_usage_error() {
    let mut rt = Runtime::new();
    let s = rt.create_signal(3);
    rt.dispose_signal(s).unwrap();
    assert_eq!(rt.read(s), Err(ReactiveError::DisposedSignal(s)));
    assert_eq!(rt.write(s, 1), Err(ReactiveError::DisposedSignal(s)));
    assert_eq!(rt.dispose_signal(s), Err(ReactiveError::DisposedSignal(s)));
    assert_eq!(rt.read(99), Err(ReactiveError::DisposedSignal(99)));
    assert_eq!(
        rt.create_computation(Some(s)),
        Err(ReactiveError::DisposedSignal(s))
    );
}

#[test]
fn disposed_computation_is_skipped() {
    let mut rt = Runtime::new();
    let s = rt.create_signal(0);
    let c = rt.create_computation(None).unwrap();
    let mut seen = Vec::new();
    flush_reading(&mut rt, s, &mut seen);
    rt.write(s, 1).unwrap();
    rt.dispose_computation(c).unwrap();
    assert_eq!(rt.next_to_run(), None);
    assert_eq!(rt.begin_run(c), Err(ReactiveError::DisposedComputation(c)));
    assert_eq!(rt.dispose_computation(c), Err(ReactiveError::DisposedComputation(c)));
}

#[test]
fn run_protocol_errors() {
    let mut rt = Runtime::new();
    let c = rt.create_computation(None).unwrap();
    let d = rt.create_computation(None).unwrap();
    assert_eq!(rt.end_run(), Err(ReactiveError::NotRunning));
    rt.begin_run(c).unwrap();
    assert_eq!(rt.begin_run(d), Err(ReactiveError::AlreadyRunning(c)));
    assert_eq!(rt.next_to_run(), None);
    assert_eq!(rt.end_run(), Ok(c));
    assert_eq!(rt.end_batch(), Err(ReactiveError::NotBatching));
    assert_eq!(rt.next_to_run(), Some(d));
}

#[test]
fn independent_counters_do_not_disturb_each_other() {
    let mut rt = Runtime::new();
    let first = rt.create_signal(1);
    let second = rt.create_signal(2);
    let a = rt.create_computation(None).unwrap();
    let b = rt.create_computation(None).unwrap();
    rt.begin_run(a).unwrap();
    rt.read(first).unwrap();
    rt.end_run().unwrap();
    rt.begin_run(b).unwrap();
    rt.read(second).unwrap();
    rt.end_run().unwrap();
    rt.write(second, 3).unwrap();
    assert_eq!(rt.next_to_run(), Some(b));
    assert_eq!(rt.read(first), Ok(1));
}

#[test]
fn writing_a_signal_read_in_the_same_run_is_a_cycle() {
    let mut rt = Runtime::new();
    let x = rt.create_signal(0);
    let c = rt.create_computation(None).unwrap();
    rt.begin_run(c).unwrap();
    let v = rt.read(x).unwrap();
    rt.write(x, v + 1).unwrap();
    assert_eq!(rt.end_run(), Err(ReactiveError::Cycle(c, c)));
    assert_eq!(rt.next_to_run(), None);
    rt.write(x, 5).unwrap();
    assert_eq!(rt.next_to_run(), None);
}

#[test]
fn dirty_feeder_runs_before_its_reader_even_when_levels_tie() {
    let mut rt = Runtime::new();
    let a = rt.create_signal(0);
    let b = rt.create_signal(0);
    let out_q = rt.create_signal(0);
    let out_p = rt.create_signal(0);
    let c = rt.create_computation(None).unwrap();
    let q = rt.create_computation(Some(out_q)).unwrap();
    let p = rt.create_computation(Some(out_p)).unwrap();
    let run = |rt: &mut Runtime, log: &mut Vec<(usize, i64)>| {
        while let Some(x) = rt.next_to_run() {
            rt.begin_run(x).unwrap();
            if x == c {
                let v = rt.read(out_p).unwrap();
                rt.read(b).unwrap();
                log.push((x, v));
            } else if x == q {
                let v = rt.read(a).unwrap() * 10;
                rt.write(out_q, v).unwrap();
                log.push((x, v));
            } else {
                let n = rt.read(a).unwrap();
                let v = if n > 0 { n + rt.read(out_q).unwrap() } else { n };
                rt.write(out_p, v).unwrap();
                log.push((x, v));
            }
            rt.end_run().unwrap();
        }
    };
    let mut log = Vec::new();
    run(&mut rt, &mut log);
    assert_eq!(log, vec![(c, 0), (q, 0), (p, 0)]);

    log.clear();
    rt.write(a, 1).unwrap();
    run(&mut rt, &mut log);
    assert_eq!(log, vec![(q, 10), (p, 11), (c, 11)]);

    log.clear();
    rt.begin_batch();
    rt.write(b, 1).unwrap();
    rt.write(a, 2).unwrap();
    rt.end_batch().unwrap();
    run(&mut rt, &mut log);
    assert_eq!(log, vec![(q, 20), (p, 22), (c, 22)]);
}

#[test]
fn failed_run_is_isolated_and_marked_stale() {
    let mut rt = Runtime::new();
    let s = rt.create_signal(0);
    let bad = rt.create_computation(None).unwrap();
    let good = rt.create_computation(None).unwrap();
    assert_eq!(rt.fail_run(), Err(ReactiveError::NotRunning));
    assert_eq!(rt.next_to_run(), Some(bad));
    rt.begin_run(bad).unwrap();
    rt.read(s).unwrap();
    assert_eq!(rt.fail_run(), Ok(bad));
    // The flush goes on with the other computation.
    assert_eq!(rt.next_to_run(), Some(good));
    rt.begin_run(good).unwrap();
    rt.read(s).unwrap();
    rt.end_run().unwrap();
    assert_eq!(rt.next_to_run(), None);
    // A later write to what it read schedules the failed one again.
    rt.write(s, 1).unwrap();
    assert_eq!(rt.next_to_run(), Some(bad));
}

#[test]
fn cycle_through_two_outputs_is_reported_with_both_members() {
    let mut rt = Runtime::new();
    let op = rt.create_signal(0);
    let oq = rt.create_signal(0);
    let p = rt.create_computation(Some(op)).unwrap();
    let q = rt.create_computation(Some(oq)).unwrap();
    let mut errors = Vec::new();
    let mut runs = 0;
    while let Some(x) = rt.next_to_run() {
        runs += 1;
        assert!(runs <= 10);
        rt.begin_run(x).unwrap();
        let (input, output) = if x == p { (oq, op) } else { (op, oq) };
        let v = rt.read(input).unwrap();
        rt.write(output, v + 1).unwrap();
        if let Err(e) = rt.end_run() {
            errors.push(e);
        }
    }
    assert_eq!(errors, vec![ReactiveError::Cycle(p, q)]);
}
