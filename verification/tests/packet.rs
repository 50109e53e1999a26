use denarii::simulator::Packet;
use denarii::{SimError, SCALE};

#[test]
fn conatiner_ops() {
    let mut pkts: Vec<Packet> = Vec::new();
    pkts.push(Packet::new(1, 1, 2 * SCALE, vec![1, 2]).unwrap());
    pkts.retain(|pkt| pkt.is_scheduled());
    assert!(pkts.is_empty());
}

#[test]
fn simple() {
    let mut p = Packet::new(1, 3, 5 * SCALE, vec![2, 3]).unwrap();
    assert_eq!(p.id, 1);
    assert_eq!(p.t_arrival, 3);
    assert_eq!(p.service_time, 5 * SCALE);
    assert_eq!(p.resource_req, [2, 3]);
    assert_eq!(p.is_completed(), false);
    assert_eq!(p.is_scheduled(), false);
    // Half of the requested resources, in millionths of a unit.
    p.allocate(vec![1_000_000, 1_500_000]).unwrap();
    assert!(p.is_scheduled());
    // Service time is set to 5 and it was allocated with half of what it
    // requested. So needs 5 * 2 ticks to complete.
    for t in 0..10 {
        p.step(3 + t).unwrap();
    }
    assert!(p.is_completed());
}

#[test]
fn new_rejects_zero_service_time() {
    let r = Packet::new(7, 0, 0, vec![1, 2]);
    assert_eq!(r.unwrap_err(), SimError::InvalidDemand);
}

#[test]
fn allocate_rejects_wrong_length() {
    let mut p = Packet::new(1, 0, SCALE, vec![1, 2]).unwrap();
    let r = p.allocate(vec![5]);
    assert_eq!(r.unwrap_err(), SimError::DimensionMismatch);
    assert!(!p.is_scheduled());
}

#[test]
fn step_rejects_zero_demand_with_allocation() {
    let mut p = Packet::new(1, 0, SCALE, vec![0, 5]).unwrap();
    p.allocate(vec![3, 1]).unwrap();
    let r = p.step(0);
    assert_eq!(r.unwrap_err(), SimError::DivisionByZero);
    assert_eq!(p.adjusted_service_time, 0);
}

#[test]
fn unscheduled_packet_does_not_progress() {
    let mut p = Packet::new(1, 0, 2 * SCALE, vec![4]).unwrap();
    for t in 0..5 {
        assert_eq!(p.step(t).unwrap(), false);
        assert_eq!(p.adjusted_service_time, 0);
    }
    assert!(!p.is_completed());
}

#[test]
fn progress_is_monotonic() {
    let mut p = Packet::new(1, 0, 10 * SCALE, vec![4]).unwrap();
    // Unscheduled ticks leave progress unchanged.
    p.step(0).unwrap();
    assert_eq!(p.adjusted_service_time, 0);
    // A quarter of the demand: progress grows by a quarter tick per tick.
    p.allocate(vec![1_000_000]).unwrap();
    let mut last = p.adjusted_service_time;
    for t in 1..8 {
        p.step(t).unwrap();
        assert!(p.adjusted_service_time >= last);
        assert_eq!(p.adjusted_service_time, last + SCALE / 4);
        last = p.adjusted_service_time;
    }
}

#[test]
fn latency_is_departure_minus_arrival() {
    let mut p = Packet::new(1, 3, SCALE, vec![2]).unwrap();
    p.allocate(vec![2 * SCALE]).unwrap();
    let done = p.step(4).unwrap();
    assert!(done);
    assert!(p.is_completed());
    assert_eq!(p.t_departure, 4);
    assert_eq!(p.latency(), 1);
}

#[test]
fn load_from_sim_resets_progress() {
    let mut p = Packet::new(9, 2, 3 * SCALE, vec![1, 1]).unwrap();
    p.allocate(vec![SCALE, SCALE]).unwrap();
    p.step(2).unwrap();
    let fresh = p.load_from_sim();
    assert_eq!(fresh.id, 9);
    assert_eq!(fresh.t_arrival, 2);
    assert_eq!(fresh.service_time, 3 * SCALE);
    assert_eq!(fresh.resource_req, [1, 1]);
    assert!(!fresh.is_scheduled());
    assert_eq!(fresh.adjusted_service_time, 0);
    assert!(!fresh.is_empty());
}

#[test]
fn dummy_packet_is_empty() {
    let d = Packet::new_dummy(4);
    assert!(d.is_empty());
    assert_eq!(d.id, 4);
    assert!(!d.is_scheduled());
}
