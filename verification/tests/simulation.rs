use denarii::algorithms::Algorithm;
use denarii::simulator::{run, Packet, Simulation};
use denarii::{SimError, SCALE};

#[test]
fn single_flow_completes_at_tick_five() {
    // One flow that fits within capacity: coefficient one, a whole tick of
    // service per tick, completion exactly at tick five.
    let mut trace: Vec<Packet> = Vec::new();
    trace.push(Packet::new(1, 0, 5 * SCALE, vec![4, 6]).unwrap());
    for t in 1..6 {
        trace.push(Packet::new_dummy(t));
    }
    let sim = run(Algorithm::Drf, vec![10, 20], trace).unwrap();
    assert_eq!(sim.completed.len(), 1);
    assert!(sim.active.is_empty());
    let flow = &sim.completed[0];
    assert!(flow.is_completed());
    assert_eq!(flow.t_departure, 5);
    assert_eq!(flow.latency(), 5);
    // The whole demand was granted: one full tick of service per tick.
    assert_eq!(flow.resource_alloc, [4 * SCALE, 6 * SCALE]);
}

#[test]
fn completed_flows_never_return_to_the_active_set() {
    let mut trace: Vec<Packet> = Vec::new();
    trace.push(Packet::new(1, 0, SCALE, vec![10]).unwrap());
    trace.push(Packet::new(2, 1, 100 * SCALE, vec![10]).unwrap());
    trace.push(Packet::new_dummy(2));
    trace.push(Packet::new_dummy(3));
    let sim = run(Algorithm::Drf, vec![10], trace).unwrap();
    assert_eq!(sim.completed.len(), 1);
    assert_eq!(sim.completed[0].id, 1);
    assert_eq!(sim.active.len(), 1);
    assert_eq!(sim.active[0].id, 2);
    for done in &sim.completed {
        assert!(done.is_completed());
        for live in &sim.active {
            assert!(!live.is_completed());
            assert_ne!(done.id, live.id);
        }
    }
}

#[test]
fn reallocation_only_when_the_active_set_changes() {
    let mut sim = match Simulation::new(Algorithm::Drf, vec![10]) {
        Ok(s) => s,
        Err(_) => panic!(),
    };
    // An arrival changes the set: the policy runs.
    let p = Packet::new(1, 0, 10 * SCALE, vec![5]).unwrap();
    assert!(sim.tick(vec![p]));
    let stamped = sim.active[0].resource_alloc.clone();
    assert_eq!(stamped, vec![5 * SCALE]);
    // No arrivals, no completions: the policy does not run and the
    // allocation stays exactly as stamped.
    for _ in 0..3 {
        assert!(!sim.tick(Vec::new()));
        assert_eq!(sim.active[0].resource_alloc, stamped);
    }
    // A completion elsewhere changes the set: the policy runs again.
    let q = Packet::new(2, 4, SCALE, vec![10]).unwrap();
    assert!(sim.tick(vec![q]));
    assert_eq!(sim.active.len(), 2);
    // Flow two is granted half its demand: one tick of service takes two.
    assert!(!sim.tick(Vec::new()));
    assert!(sim.tick(Vec::new()));
    assert_eq!(sim.completed.len(), 1);
    assert_eq!(sim.completed[0].id, 2);
    assert_eq!(sim.active.len(), 1);
}

#[test]
fn run_rejects_zero_capacity() {
    let r = run(Algorithm::Drf, vec![10, 0], Vec::new());
    match r {
        Ok(_) => panic!(),
        Err(e) => assert_eq!(e, SimError::InfeasibleInput),
    }
}

#[test]
fn simulation_new_rejects_zero_capacity() {
    match Simulation::new(Algorithm::Drf, vec![0]) {
        Ok(_) => panic!(),
        Err(e) => assert_eq!(e, SimError::InfeasibleInput),
    }
}

#[test]
fn empty_trace_runs_nothing() {
    let sim = run(Algorithm::Drf, vec![3], Vec::new()).unwrap();
    assert_eq!(sim.now, 0);
    assert!(sim.active.is_empty());
    assert!(sim.completed.is_empty());
}
