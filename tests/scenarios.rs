use cpu_scheduler::driver::{load_workload, run_simulation, average_wait_time, build_manager};
use cpu_scheduler::process::Kind;
use cpu_scheduler::scheduler::{
    get_total_processes, load_ready, simulate_tick, ProcessManager, IN_USE, MAX_TIME,
};
use cpu_scheduler::workload::ProcessRecord;

fn record(name: &str, arrival: u32, history: Vec<(Kind, u32)>) -> ProcessRecord {
    ProcessRecord { name: name.to_string(), arrival, history }
}

fn manager_of(records: Vec<ProcessRecord>) -> ProcessManager {
    build_manager(records).expect("valid records")
}

#[test]
fn single_compute_burst_terminates_without_waiting() {
    let mut m = manager_of(vec![record("A", 0, vec![(Kind::Compute, 3)])]);
    let r = run_simulation(&mut m);
    assert!(r.completed);
    assert_eq!(r.terminated, 1);
    assert_eq!(r.total_wait, 0);
    let p = &m.table[0];
    assert_eq!(p.id, 101);
    assert_eq!(p.start_time, 0);
    assert_eq!(p.cpu_total, 3);
    assert_eq!(p.cpu_burst_count, 1);
    assert_eq!(p.end_time, 3);
    assert_eq!(p.wait_time, 0);
    assert_eq!(r.final_tick, 2);
    assert_eq!(r.idle_ticks, 0);
}

#[test]
fn compute_input_compute_totals() {
    let mut m = manager_of(vec![record(
        "B",
        0,
        vec![(Kind::Compute, 2), (Kind::InputIO, 3), (Kind::Compute, 1)],
    )]);
    let r = run_simulation(&mut m);
    assert!(r.completed);
    let p = &m.table[0];
    assert_eq!(p.cpu_total, 3);
    assert_eq!(p.io_total.0, 3);
    assert_eq!(p.io_total.1, 0);
    assert_eq!(p.cpu_burst_count, 2);
    assert_eq!(p.io_burst_count.0, 1);
    assert_eq!(p.end_time, 6);
    assert_eq!(
        p.wait_time,
        p.end_time as i64 - p.start_time as i64 - p.cpu_total as i64 - p.io_total.0 as i64
            - p.io_total.1 as i64
    );
    assert_eq!(p.wait_time, 0);
    // The process stays resident on the input device, so those ticks are not idle.
    assert_eq!(r.idle_ticks, 0);
    assert_eq!(r.final_tick, 5);
}

#[test]
fn sixth_process_waits_for_room() {
    let records = (0..6).map(|k| record(&format!("P{}", k), 0, vec![(Kind::Compute, 2)])).collect();
    let mut m = manager_of(records);
    load_ready(&mut m, 0);
    assert_eq!(m.entryq.len(), 1);
    assert_eq!(m.readyq.len(), 5);
    assert_eq!(get_total_processes(&m), IN_USE);
    assert!(!simulate_tick(&mut m, 0));
    assert_eq!(m.entryq.len(), 1);
    assert!(get_total_processes(&m) <= IN_USE);
    assert!(!simulate_tick(&mut m, 1));
    // The first process terminated at this tick; its room is taken at the next one.
    assert_eq!(m.table[0].end_time, 2);
    assert_eq!(m.entryq.len(), 1);
    assert!(get_total_processes(&m) <= IN_USE);
    assert!(!simulate_tick(&mut m, 2));
    assert_eq!(m.entryq.len(), 0);
    assert_eq!(m.table[5].start_time, 2);
    assert!(get_total_processes(&m) <= IN_USE);
}

#[test]
fn never_more_than_capacity_resident() {
    let records = (0..9)
        .map(|k| record(&format!("P{}", k), 0, vec![(Kind::Compute, 1), (Kind::InputIO, 2), (Kind::Compute, 1)]))
        .collect();
    let mut m = manager_of(records);
    load_ready(&mut m, 0);
    let mut t: u32 = 0;
    loop {
        assert!(get_total_processes(&m) <= IN_USE);
        if simulate_tick(&mut m, t) {
            break;
        }
        t += 1;
        assert!(t <= MAX_TIME);
    }
    assert_eq!(m.total_terminated, 9);
}

#[test]
fn stop_line_ends_the_workload() {
    let text = "A 0\nC 3 N 0\nSTOPHERE  0\nB 0\nC 2 N 0\n";
    let mut m = load_workload(text).expect("loads");
    assert_eq!(m.table.len(), 1);
    assert_eq!(m.table[0].name, "A");
    let r = run_simulation(&mut m);
    assert!(r.completed);
    assert_eq!(r.terminated, 1);
}

#[test]
fn rerun_gives_identical_results() {
    let text = "A 0\nC 2 I 3 C 1 N 0\nB 1\nC 1 O 2 C 2 N 0\nC 4\nC 3 N 0\nSTOPHERE  0\n";
    let mut m1 = load_workload(text).expect("loads");
    let mut m2 = load_workload(text).expect("loads");
    let r1 = run_simulation(&mut m1);
    let r2 = run_simulation(&mut m2);
    assert_eq!(r1.completed, r2.completed);
    assert_eq!(r1.final_tick, r2.final_tick);
    assert_eq!(r1.idle_ticks, r2.idle_ticks);
    assert_eq!(r1.terminated, r2.terminated);
    assert_eq!(r1.total_wait, r2.total_wait);
    assert_eq!(r1.reports.len(), r2.reports.len());
    for (a, b) in r1.reports.iter().zip(r2.reports.iter()) {
        assert_eq!(a.tick, b.tick);
        assert_eq!(a.active, b.active);
        assert_eq!(a.iactive, b.iactive);
        assert_eq!(a.oactive, b.oactive);
        assert_eq!(a.queues.entry, b.queues.entry);
        assert_eq!(a.queues.ready, b.queues.ready);
        assert_eq!(a.queues.input, b.queues.input);
        assert_eq!(a.queues.output, b.queues.output);
    }
    assert_eq!(r1.terminated, 3);
}

#[test]
fn wait_time_formula_holds_for_every_terminated_process() {
    let text = "A 0\nC 2 I 3 C 1 O 2 C 1 N 0\nB 0\nC 3 O 1 C 2 N 0\nC 2\nC 1 I 1 C 1 N 0\nSTOPHERE  0\n";
    let mut m = load_workload(text).expect("loads");
    let r = run_simulation(&mut m);
    assert!(r.completed);
    let mut sum: i64 = 0;
    for p in m.table.iter() {
        assert!(p.end_time > 0);
        let w = p.end_time as i64 - p.start_time as i64 - p.cpu_total as i64 - p.io_total.0 as i64
            - p.io_total.1 as i64;
        assert_eq!(p.wait_time, w);
        assert!(p.wait_time >= 0);
        sum += w;
    }
    assert_eq!(r.total_wait, sum);
}

#[test]
fn input_then_output_can_serve_twice_in_one_tick() {
    // Input completes and the output device serves the same process in that tick, so the
    // wait time comes out below zero.
    let mut m = manager_of(vec![record(
        "X",
        0,
        vec![(Kind::Compute, 1), (Kind::InputIO, 1), (Kind::OutputIO, 1)],
    )]);
    let r = run_simulation(&mut m);
    assert!(r.completed);
    assert_eq!(m.table[0].end_time, 2);
    assert_eq!(m.table[0].wait_time, -1);
}

#[test]
fn compute_then_io_waits_a_tick() {
    let mut m = manager_of(vec![record("Y", 0, vec![(Kind::Compute, 1), (Kind::OutputIO, 2)])]);
    load_ready(&mut m, 0);
    assert!(!simulate_tick(&mut m, 0));
    // Left the compute slot at tick 0 and took the output slot without service.
    assert_eq!(m.oactive, Some(0));
    assert_eq!(m.table[0].io_total.1, 0);
    assert_eq!(m.old_active_id, None);
    assert!(!simulate_tick(&mut m, 1));
    assert_eq!(m.table[0].io_total.1, 1);
    assert!(simulate_tick(&mut m, 2));
    assert_eq!(m.table[0].end_time, 3);
    assert_eq!(m.table[0].wait_time, 0);
}

#[test]
fn late_arrival_holds_back_the_entry_queue() {
    let mut m = manager_of(vec![
        record("L", 3, vec![(Kind::Compute, 1)]),
        record("E", 0, vec![(Kind::Compute, 1)]),
    ]);
    load_ready(&mut m, 0);
    assert_eq!(m.entryq.len(), 2);
    assert_eq!(m.readyq.len(), 0);
    load_ready(&mut m, 3);
    assert_eq!(m.entryq.len(), 0);
    assert_eq!(m.readyq.len(), 2);
    assert_eq!(m.table[0].start_time, 3);
    assert_eq!(m.table[1].start_time, 3);
}

#[test]
fn idle_run_counts_idle_ticks() {
    let mut m = manager_of(vec![record("Z", 2, vec![(Kind::Compute, 1)])]);
    let r = run_simulation(&mut m);
    assert!(r.completed);
    assert_eq!(r.idle_ticks, 2);
    assert_eq!(r.final_tick, 2);
    assert_eq!(m.table[0].start_time, 2);
    assert_eq!(m.table[0].end_time, 3);
}

#[test]
fn empty_workload_ends_at_once() {
    let mut m = manager_of(vec![]);
    let r = run_simulation(&mut m);
    assert!(r.completed);
    assert_eq!(r.final_tick, 0);
    assert_eq!(r.terminated, 0);
    assert_eq!(r.idle_ticks, 1);
    assert_eq!(average_wait_time(r.total_wait, r.terminated), None);
}

#[test]
fn long_run_hits_the_safety_stop() {
    let mut m = manager_of(vec![record("S", 0, vec![(Kind::Compute, 600)])]);
    let r = run_simulation(&mut m);
    assert!(!r.completed);
    assert_eq!(r.final_tick, MAX_TIME + 1);
    assert_eq!(m.table[0].cpu_total, 501);
    assert_eq!(r.terminated, 0);
}

#[test]
fn reports_every_twenty_five_ticks() {
    let mut m = manager_of(vec![
        record("R", 0, vec![(Kind::Compute, 30)]),
        record("Q", 0, vec![(Kind::Compute, 30)]),
    ]);
    let r = run_simulation(&mut m);
    assert!(r.completed);
    assert_eq!(r.final_tick, 59);
    let ticks: Vec<u32> = r.reports.iter().map(|s| s.tick).collect();
    assert_eq!(ticks, vec![0, 25, 50]);
    assert_eq!(r.reports[0].active, 0);
    assert_eq!(r.reports[0].queues.ready, vec![101, 102]);
    assert_eq!(r.reports[1].active, 101);
    assert_eq!(r.reports[1].queues.ready, vec![102]);
    assert_eq!(r.reports[2].active, 102);
    assert!(r.reports[2].queues.ready.is_empty());
    assert!(r.reports[2].queues.entry.is_empty());
}

#[test]
fn average_wait_rounds_toward_zero() {
    assert_eq!(average_wait_time(7, 2), Some(3));
    assert_eq!(average_wait_time(-7, 2), Some(-3));
    assert_eq!(average_wait_time(0, 4), Some(0));
    assert_eq!(average_wait_time(5, 0), None);
}

fn service(p: &cpu_scheduler::process::Process) -> u32 {
    p.cpu_total + p.io_total.0 + p.io_total.1
}

#[test]
fn service_grows_at_most_one_per_tick() {
    let m0 = load_workload(
        "A 0\nC 1 O 2 C 1 I 2 C 1 N 0\nB 0\nC 2 I 1 C 1 O 1 C 1 N 0\nC 1\nC 1 O 1 I 1 C 1 N 0\nSTOPHERE  0\n",
    )
    .expect("loads");
    let mut m = m0;
    load_ready(&mut m, 0);
    let mut t: u32 = 0;
    loop {
        let before: Vec<u32> = m.table.iter().map(service).collect();
        let done = simulate_tick(&mut m, t);
        for (p, b) in m.table.iter().zip(before.iter()) {
            assert!(service(p) <= b + 1);
        }
        if done {
            break;
        }
        t += 1;
        assert!(t <= MAX_TIME);
    }
    for p in m.table.iter() {
        assert!(p.wait_time >= 0);
    }
}

#[test]
fn input_then_output_gets_two_ticks_of_service() {
    let mut m = manager_of(vec![record(
        "X",
        0,
        vec![(Kind::Compute, 1), (Kind::InputIO, 1), (Kind::OutputIO, 1)],
    )]);
    load_ready(&mut m, 0);
    assert!(!simulate_tick(&mut m, 0));
    assert_eq!(service(&m.table[0]), 1);
    assert!(simulate_tick(&mut m, 1));
    assert_eq!(service(&m.table[0]), 3);
}
