use driver_simulator::register::ArrayWrite;
use driver_simulator::simulator::run_loop;
use driver_simulator::simulator::simulate;
use driver_simulator::simulator::Module;
use driver_simulator::simulator::Simulator;

fn with_events(events: &[usize]) -> Simulator {
    let mut sim = Simulator::new();
    for &e in events {
        sim.Driver_event.push_back(e);
    }
    sim
}

#[test]
fn canonical_run_counts_to_one_hundred() {
    let (sim, report) = simulate();
    assert_eq!(sim.cnt.read(0), 100);
    assert_eq!(sim.stamp, 10_050);
    assert!(sim.Driver_event.is_empty());
    assert_eq!(report.ticks_run, 100);
    assert!(!report.idle_stopped);
    assert_eq!(report.trace.len(), 100);
    for k in 0..100 {
        assert_eq!(report.trace[k].stamp, 100 * (k + 1));
        assert_eq!(report.trace[k].value, k as u32);
    }
}

#[test]
fn register_counts_events_tick_by_tick() {
    let mut sim = with_events(&[100, 200, 300]);
    for i in 1..=3usize {
        sim.stamp = i * 100;
        sim.reset_downstream();
        sim.simulate_Driver();
        assert!(sim.Driver_triggered);
        // The staged increment is not yet visible on this tick.
        assert_eq!(sim.cnt.read(0) as usize, i - 1);
        sim.stamp += 50;
        sim.tick_registers();
        sim.reset_dram();
        assert_eq!(sim.cnt.read(0) as usize, i);
    }
    assert!(sim.Driver_event.is_empty());
}

#[test]
fn module_runs_only_when_front_event_is_due() {
    let mut sim = with_events(&[500]);
    sim.stamp = 100;
    sim.simulate_Driver();
    assert!(!sim.Driver_triggered);
    assert_eq!(sim.Driver_event.len(), 1);
    assert_eq!(sim.cnt.writes.len(), 0);
    sim.stamp = 500;
    sim.simulate_Driver();
    assert!(sim.Driver_triggered);
    assert!(sim.Driver_event.is_empty());
    assert_eq!(sim.cnt.writes.len(), 1);
}

#[test]
fn event_valid_checks_front_against_stamp() {
    let mut sim = Simulator::new();
    sim.stamp = 100;
    let empty = std::collections::VecDeque::new();
    assert!(!sim.event_valid(&empty));
    let mut due = std::collections::VecDeque::new();
    due.push_back(100usize);
    assert!(sim.event_valid(&due));
    let mut not_due = std::collections::VecDeque::new();
    not_due.push_back(101usize);
    assert!(!sim.event_valid(&not_due));
}

#[test]
fn failed_run_keeps_event_queued_for_retry() {
    let mut sim = with_events(&[100]);
    sim.stamp = 100;
    sim.simulate_stuck();
    assert!(!sim.Driver_triggered);
    assert_eq!(sim.Driver_event.len(), 1);
    assert_eq!(sim.cnt.read(0), 0);
    // The retained event is still due next tick, where a success consumes it.
    sim.stamp = 200;
    sim.simulate_Driver();
    assert!(sim.Driver_triggered);
    assert!(sim.Driver_event.is_empty());
}

#[test]
fn always_failing_module_halts_after_exactly_one_hundred_ticks() {
    let mut events = Vec::new();
    for i in 1..=100usize {
        events.push(i * 100);
    }
    let mut sim = with_events(&events);
    let report = run_loop(&mut sim, Module::Stuck, 100, 100);
    assert_eq!(report.ticks_run, 100);
    assert!(report.idle_stopped);
    assert!(report.trace.is_empty());
    assert_eq!(sim.cnt.read(0), 0);
    assert_eq!(sim.Driver_event.len(), 100);
}

#[test]
fn idle_threshold_stops_the_loop_early() {
    let mut sim = Simulator::new();
    let report = run_loop(&mut sim, Module::Driver, 50, 3);
    assert_eq!(report.ticks_run, 3);
    assert!(report.idle_stopped);
    assert!(report.trace.is_empty());
}

#[test]
fn triggered_tick_resets_the_idle_counter() {
    // Tick 1 triggers; ticks 2 to 4 are idle, so a threshold of 3 stops the
    // run at tick 4 rather than tick 3.
    let mut sim = with_events(&[100, 100_000]);
    let report = run_loop(&mut sim, Module::Driver, 10, 3);
    assert_eq!(report.ticks_run, 4);
    assert!(report.idle_stopped);
    assert_eq!(report.trace.len(), 1);
    assert_eq!(report.trace[0].stamp, 100);
    assert_eq!(report.trace[0].value, 0);
}

#[test]
fn run_to_bound_without_stopping_when_enough_events_trigger() {
    let mut sim = with_events(&[100, 200, 300, 400, 500]);
    let report = run_loop(&mut sim, Module::Driver, 5, 100);
    assert_eq!(report.ticks_run, 5);
    assert!(!report.idle_stopped);
    assert_eq!(sim.cnt.read(0), 5);
}

#[test]
fn driver_commit_stamp_is_prior_boundary_plus_half_step() {
    let mut sim = with_events(&[130]);
    sim.stamp = 130;
    sim.simulate_Driver();
    assert_eq!(sim.cnt.writes.len(), 1);
    assert_eq!(sim.cnt.writes[0].stamp, 150);
    assert_eq!(sim.cnt.writes[0].idx, 0);
    assert_eq!(sim.cnt.writes[0].value, 1);
}

#[test]
fn register_wraps_around_at_the_32_bit_limit() {
    let mut sim = with_events(&[100]);
    sim.cnt.write(0, ArrayWrite::new(0, 0, u32::MAX));
    sim.tick_registers();
    assert_eq!(sim.cnt.read(0), u32::MAX);
    sim.stamp = 100;
    sim.simulate_Driver();
    sim.stamp += 50;
    sim.tick_registers();
    assert_eq!(sim.cnt.read(0), 0);
}

#[test]
fn fresh_simulator_defaults() {
    let sim = Simulator::new();
    assert_eq!(sim.stamp, 0);
    assert!(!sim.Driver_triggered);
    assert!(sim.Driver_event.is_empty());
    assert!(sim.request_stamp_map_table.is_empty());
    assert_eq!(sim.cnt.read(0), 0);
}
