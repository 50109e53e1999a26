//! The flow lifecycle ("packets") and the tick-driven simulation loop that
//! steps every active flow, evicts completed ones, and reallocates capacity
//! whenever the active set changes.

use vstd::arithmetic::div_mod::lemma_div_nonincreasing;
use vstd::arithmetic::mul::lemma_mul_upper_bound;
use vstd::prelude::*;

use crate::algorithms::{
    Algorithm, demands_bounded, entries_bounded, inputs_ok, rows, spec_allocate, zero_demand,
};
use crate::{MAX_FLOWS, MAX_PROGRESS, MAX_UNITS, SCALE, SimError};

verus! {

/// Every allocation entry small enough that one step's progress increment
/// fits: allocations are demands (at most `MAX_UNITS` units) scaled by a
/// coefficient of at most `SCALE` millionths.
pub open spec fn alloc_entries_bounded(v: Seq<u64>) -> bool {
    forall|k: int| 0 <= k < v.len() ==> #[trigger] v[k] <= 1000000000000000000
}

/// One competing unit of multi-resource demand with lifecycle state.
///
/// A packet is unscheduled while `resource_alloc` is empty, scheduled once
/// an allocation (possibly zero-valued) is assigned, and completed once its
/// accumulated service reaches its target. Quantities follow the crate's
/// fixed-point convention: demands in whole units, allocations and service
/// in millionths.
#[derive(Debug)]
pub struct Packet {
    /// Unique identity; never used for ordering.
    pub id: u64,
    /// Tick at which the packet entered the active set.
    pub t_arrival: u64,
    /// Tick at which the packet completed; meaningful only once completed.
    pub t_departure: u64,
    /// Requested quantity per resource dimension, in whole units.
    pub resource_req: Vec<u64>,
    /// Granted quantity per resource dimension, in millionths of a unit.
    /// Empty means "never allocated".
    pub resource_alloc: Vec<u64>,
    /// Completion target, in millionths of a tick of service.
    pub service_time: u64,
    /// Service received so far, in millionths of a tick.
    pub adjusted_service_time: u64,
    /// Placeholder for a trace slot where nothing arrived.
    pub is_empty: bool,
}

impl Packet {
    /// A packet is scheduled once it holds an allocation.
    pub open spec fn spec_scheduled(self) -> bool {
        self.resource_alloc@.len() > 0
    }

    /// A packet is completed once its accumulated service reaches its target.
    pub open spec fn spec_completed(self) -> bool {
        self.adjusted_service_time >= self.service_time
    }

    /// Well-formedness: an allocation matches the demand's length, entries
    /// stay within the fixed-point bounds, placeholders carry no work, real
    /// packets have a positive completion target, and a completed packet
    /// departed no earlier than it arrived.
    pub open spec fn wf(self) -> bool {
        &&& self.resource_alloc@.len() == 0 || self.resource_alloc@.len()
            == self.resource_req@.len()
        &&& entries_bounded(self.resource_req@)
        &&& alloc_entries_bounded(self.resource_alloc@)
        &&& self.service_time <= MAX_PROGRESS
        &&& self.adjusted_service_time <= 2000000000000000000
        &&& (self.is_empty ==> self.t_arrival == 0 && self.service_time == 0)
        &&& (!self.is_empty ==> self.service_time >= 1)
        &&& (self.spec_completed() ==> self.t_departure >= self.t_arrival)
    }

    /// The service gained in one tick: the granted fraction of the first
    /// resource dimension, in millionths.
    pub open spec fn step_ratio(self) -> int {
        if self.resource_req@[0] == 0 {
            0
        } else {
            self.resource_alloc@[0] as int / self.resource_req@[0] as int
        }
    }

    /// A step fails on a packet whose progress-tracked demand entry is zero
    /// while its allocation there is not.
    pub open spec fn step_err(self) -> bool {
        &&& self.spec_scheduled()
        &&& self.resource_req@[0] == 0
        &&& self.resource_alloc@[0] != 0
    }
}

/// The packet after one successful tick at time `now`: an unscheduled
/// packet is unchanged; a scheduled one gains `step_ratio` service and, on
/// completion, records `now` as its departure tick.
pub open spec fn stepped(p: Packet, now: u64) -> Packet {
    if !p.spec_scheduled() || p.step_err() {
        p
    } else {
        let adj = (p.adjusted_service_time + p.step_ratio()) as u64;
        Packet {
            adjusted_service_time: adj,
            t_departure: if adj >= p.service_time {
                now
            } else {
                p.t_departure
            },
            ..p
        }
    }
}

impl Packet {
    /// Builds an unscheduled packet, or fails with `InvalidDemand` when the
    /// completion target is zero.
    pub fn new(id: u64, t_arrival: u64, service_time: u64, resource_req: Vec<u64>) -> (r: Result<
        Packet,
        SimError,
    >)
        requires
            service_time <= MAX_PROGRESS,
            entries_bounded(resource_req@),
        ensures
            r is Ok <==> service_time >= 1,
            r is Err ==> r == Result::<Packet, SimError>::Err(SimError::InvalidDemand),
            r matches Ok(p) ==> {
                &&& p.id == id
                &&& p.t_arrival == t_arrival
                &&& p.t_departure == 0
                &&& p.resource_req@ == resource_req@
                &&& p.resource_alloc@ == Seq::<u64>::empty()
                &&& p.service_time == service_time
                &&& p.adjusted_service_time == 0
                &&& !p.is_empty
                &&& p.wf()
                &&& !p.spec_completed()
                &&& !p.spec_scheduled()
            },
    {
        if service_time == 0 {
            return Err(SimError::InvalidDemand);
        }
        Ok(
            Packet {
                id,
                t_arrival,
                t_departure: 0,
                resource_req,
                resource_alloc: Vec::new(),
                service_time,
                adjusted_service_time: 0,
                is_empty: false,
            },
        )
    }

    /// Builds a placeholder packet for a trace slot where nothing arrives.
    pub fn new_dummy(id: u64) -> (p: Packet)
        ensures
            p.id == id,
            p.t_arrival == 0,
            p.t_departure == 0,
            p.resource_req@ == Seq::<u64>::empty(),
            p.resource_alloc@ == Seq::<u64>::empty(),
            p.service_time == 0,
            p.adjusted_service_time == 0,
            p.is_empty,
            p.wf(),
    {
        Packet {
            id,
            t_arrival: 0,
            t_departure: 0,
            resource_req: Vec::new(),
            resource_alloc: Vec::new(),
            service_time: 0,
            adjusted_service_time: 0,
            is_empty: true,
        }
    }

    /// Advances the packet by exactly one tick at time `now`.
    ///
    /// An unscheduled packet does not progress and reports `Ok(false)`. A
    /// scheduled packet gains the granted fraction of its first resource
    /// dimension; accumulated service never decreases. On reaching its
    /// target the packet records `now` as its departure tick and reports
    /// `Ok(true)`. Fails with `DivisionByZero`, changing nothing, exactly
    /// when the first demand entry is zero while its allocation is not.
    pub fn step(&mut self, now: u64) -> (r: Result<bool, SimError>)
        requires
            old(self).wf(),
            !old(self).spec_completed(),
            now >= old(self).t_arrival,
        ensures
            final(self).wf(),
            *final(self) == stepped(*old(self), now),
            old(self).step_err() ==> r == Result::<bool, SimError>::Err(SimError::DivisionByZero)
                && *final(self) == *old(self),
            !old(self).step_err() ==> r == Result::<bool, SimError>::Ok(
                old(self).spec_scheduled() && final(self).spec_completed(),
            ),
            final(self).adjusted_service_time >= old(self).adjusted_service_time,
            !old(self).spec_scheduled() ==> *final(self) == *old(self),
    {
        if self.resource_alloc.len() == 0 {
            return Ok(false);
        }
        let d0 = self.resource_req[0];
        let a0 = self.resource_alloc[0];
        if d0 == 0 && a0 != 0 {
            return Err(SimError::DivisionByZero);
        }
        let ratio: u64 = if d0 == 0 {
            0
        } else {
            proof {
                lemma_div_nonincreasing(a0 as int, d0 as int);
            }
            a0 / d0
        };
        self.adjusted_service_time = self.adjusted_service_time + ratio;
        if self.adjusted_service_time >= self.service_time {
            self.t_departure = now;
            Ok(true)
        } else {
            Ok(false)
        }
    }

    /// A fresh copy for the simulator: same identity, arrival, target and
    /// demand, with allocation and accumulated service reset.
    pub fn load_from_sim(&self) -> (r: Packet)
        requires
            self.wf(),
        ensures
            r.id == self.id,
            r.t_arrival == self.t_arrival,
            r.t_departure == 0,
            r.resource_req@ == self.resource_req@,
            r.resource_alloc@ == Seq::<u64>::empty(),
            r.service_time == self.service_time,
            r.adjusted_service_time == 0,
            r.is_empty == self.is_empty,
            r.wf(),
            !r.spec_scheduled(),
    {
        let mut req: Vec<u64> = Vec::new();
        let mut k: usize = 0;
        while k < self.resource_req.len()
            invariant
                k <= self.resource_req@.len(),
                req@ == self.resource_req@.take(k as int),
            decreases self.resource_req@.len() - k,
        {
            req.push(self.resource_req[k]);
            proof {
                assert(req@ =~= self.resource_req@.take(k as int + 1));
            }
            k += 1;
        }
        proof {
            assert(req@ =~= self.resource_req@);
        }
        Packet {
            id: self.id,
            t_arrival: self.t_arrival,
            t_departure: 0,
            resource_req: req,
            resource_alloc: Vec::new(),
            service_time: self.service_time,
            adjusted_service_time: 0,
            is_empty: self.is_empty,
        }
    }

    /// Whether this packet is a placeholder trace slot.
    pub fn is_empty(&self) -> (r: bool)
        ensures
            r == self.is_empty,
    {
        self.is_empty
    }

    /// Whether accumulated service has reached the completion target.
    pub fn is_completed(&self) -> (r: bool)
        ensures
            r == self.spec_completed(),
    {
        self.adjusted_service_time >= self.service_time
    }

    /// Whether the packet currently holds an allocation.
    pub fn is_scheduled(&self) -> (r: bool)
        ensures
            r == self.spec_scheduled(),
    {
        self.resource_alloc.len() != 0
    }

    /// Assigns an allocation, or fails with `DimensionMismatch`, changing
    /// nothing, exactly when the vector's length differs from the demand's.
    pub fn allocate(&mut self, alloc: Vec<u64>) -> (r: Result<(), SimError>)
        requires
            old(self).wf(),
            !old(self).spec_completed(),
            alloc_entries_bounded(alloc@),
        ensures
            final(self).wf(),
            r is Ok <==> alloc@.len() == old(self).resource_req@.len(),
            r is Err ==> r == Result::<(), SimError>::Err(SimError::DimensionMismatch)
                && *final(self) == *old(self),
            r is Ok ==> *final(self) == (Packet { resource_alloc: alloc, ..*old(self) }),
    {
        if alloc.len() != self.resource_req.len() {
            return Err(SimError::DimensionMismatch);
        }
        self.resource_alloc = alloc;
        Ok(())
    }

    /// The number of ticks from arrival to completion. Meaningful only for
    /// a completed packet.
    pub fn latency(&self) -> (r: u64)
        requires
            self.wf(),
            self.spec_completed(),
        ensures
            r == self.t_departure - self.t_arrival,
    {
        self.t_departure - self.t_arrival
    }
}

/// Every packet of `s` after one tick at time `now`.
pub open spec fn stepped_all(s: Seq<Packet>, now: u64) -> Seq<Packet> {
    s.map_values(|p: Packet| stepped(p, now))
}

/// The packets of `s` that are not completed, in order.
pub open spec fn still_active(s: Seq<Packet>) -> Seq<Packet>
    decreases s.len(),
{
    if s.len() == 0 {
        Seq::<Packet>::empty()
    } else {
        let rest = still_active(s.drop_last());
        if s.last().spec_completed() {
            rest
        } else {
            rest.push(s.last())
        }
    }
}

/// The packets of `s` that are completed, in order.
pub open spec fn newly_done(s: Seq<Packet>) -> Seq<Packet>
    decreases s.len(),
{
    if s.len() == 0 {
        Seq::<Packet>::empty()
    } else {
        let rest = newly_done(s.drop_last());
        if s.last().spec_completed() {
            rest.push(s.last())
        } else {
            rest
        }
    }
}

/// Splitting a set of packets by completion loses none of them.
pub proof fn lemma_partition_len(s: Seq<Packet>)
    ensures
        still_active(s).len() + newly_done(s).len() == s.len(),
    decreases s.len(),
{
    if s.len() > 0 {
        lemma_partition_len(s.drop_last());
    }
}

/// The demand vectors of a set of packets, in order.
pub open spec fn req_rows(s: Seq<Packet>) -> Seq<Seq<u64>> {
    Seq::new(s.len(), |i: int| s[i].resource_req@)
}

/// `after` is `before` restamped with coefficient `coef` millionths: all
/// fields agree except the allocation, which becomes the coefficient-scaled
/// demand.
pub open spec fn stamped_rel(before: Packet, after: Packet, coef: int) -> bool {
    &&& after.id == before.id
    &&& after.t_arrival == before.t_arrival
    &&& after.t_departure == before.t_departure
    &&& after.resource_req@ == before.resource_req@
    &&& after.service_time == before.service_time
    &&& after.adjusted_service_time == before.adjusted_service_time
    &&& after.is_empty == before.is_empty
    &&& after.resource_alloc@ == before.resource_req@.map_values(|d: u64| (coef * d) as u64)
}

/// A packet fit to join the active set at tick `now`.
pub open spec fn admissible_arrival(p: Packet, cap: Seq<u64>, now: u64) -> bool {
    &&& p.wf()
    &&& !p.is_empty
    &&& !p.spec_scheduled()
    &&& p.adjusted_service_time == 0
    &&& p.t_arrival == now
    &&& p.resource_req@.len() == cap.len()
}

/// Everything one tick promises, as a relation between the state before,
/// the arrivals, the state after, and whether the policy was consulted:
/// every active packet steps once at the old clock, the newly completed
/// move to the completed set in order, and exactly when the remaining set
/// is non-empty and changed this tick the policy runs once and restamps
/// every remaining packet with its coefficient-scaled demand.
pub open spec fn tick_post(
    pre: Simulation,
    arrivals: Seq<Packet>,
    post: Simulation,
    reallocated: bool,
) -> bool {
    let after = stepped_all(pre.active@ + arrivals, pre.now);
    let done = newly_done(after);
    let kept = still_active(after);
    &&& post.wf()
    &&& post.now == pre.now + 1
    &&& post.algorithm == pre.algorithm
    &&& post.capacity@ == pre.capacity@
    &&& post.completed@ == pre.completed@ + done
    &&& reallocated == (kept.len() > 0 && (arrivals.len() > 0 || done.len() > 0))
    &&& (!reallocated ==> post.active@ == kept)
    &&& (reallocated ==> {
        let coefs = spec_allocate(pre.algorithm, pre.capacity@, req_rows(kept));
        &&& post.active@.len() == kept.len()
        &&& forall|i: int|
            0 <= i < kept.len() ==> stamped_rel(kept[i], #[trigger] post.active@[i], coefs[i])
    })
}

/// The tick-driven simulation: a fixed capacity, an allocation policy, the
/// active set it owns, and the completed set it fills.
pub struct Simulation {
    /// The allocation policy consulted whenever the active set changes.
    pub algorithm: Algorithm,
    /// Available quantity per resource dimension, fixed for the run.
    pub capacity: Vec<u64>,
    /// Flows that arrived and have not completed.
    pub active: Vec<Packet>,
    /// Flows that completed, in completion order.
    pub completed: Vec<Packet>,
    /// The next tick to run.
    pub now: u64,
}

impl Simulation {
    /// Well-formedness: positive bounded capacity; every active packet is a
    /// live, well-formed flow of matching dimension that arrived no later
    /// than the clock and cannot fail a step; every completed packet is
    /// completed.
    pub open spec fn wf(self) -> bool {
        &&& forall|k: int| 0 <= k < self.capacity@.len() ==> 1 <= #[trigger] self.capacity@[k]
            <= MAX_UNITS
        &&& self.active@.len() <= MAX_FLOWS
        &&& forall|i: int|
            0 <= i < self.active@.len() ==> {
                let p = #[trigger] self.active@[i];
                &&& p.wf()
                &&& !p.spec_completed()
                &&& !p.is_empty
                &&& !p.step_err()
                &&& p.t_arrival <= self.now
                &&& p.resource_req@.len() == self.capacity@.len()
            }
        &&& forall|i: int|
            0 <= i < self.completed@.len() ==> {
                let p = #[trigger] self.completed@[i];
                &&& p.wf()
                &&& p.spec_completed()
            }
    }

    /// An empty simulation at tick zero, or `InfeasibleInput` when some
    /// capacity entry is zero.
    pub fn new(algorithm: Algorithm, capacity: Vec<u64>) -> (r: Result<Simulation, SimError>)
        requires
            entries_bounded(capacity@),
        ensures
            r is Ok <==> (forall|k: int| 0 <= k < capacity@.len() ==> #[trigger] capacity@[k] >= 1),
            r is Err ==> r == Result::<Simulation, SimError>::Err(SimError::InfeasibleInput),
            r matches Ok(s) ==> {
                &&& s.wf()
                &&& s.algorithm == algorithm
                &&& s.capacity@ == capacity@
                &&& s.active@.len() == 0
                &&& s.completed@.len() == 0
                &&& s.now == 0
            },
    {
        let mut k: usize = 0;
        while k < capacity.len()
            invariant
                k <= capacity@.len(),
                forall|j: int| 0 <= j < k ==> #[trigger] capacity@[j] >= 1,
            decreases capacity@.len() - k,
        {
            if capacity[k] == 0 {
                return Err(SimError::InfeasibleInput);
            }
            k += 1;
        }
        Ok(
            Simulation {
                algorithm,
                capacity,
                active: Vec::new(),
                completed: Vec::new(),
                now: 0,
            },
        )
    }

    /// Runs one tick: ingest `arrivals`, step every active packet once,
    /// move the newly completed ones to the completed set, and — exactly
    /// when the remaining active set is non-empty and it changed this tick
    /// (an arrival or a completion) — consult the policy once and restamp
    /// every remaining packet with its coefficient-scaled demand. Returns
    /// whether the policy was consulted.
    pub fn tick(&mut self, arrivals: Vec<Packet>) -> (reallocated: bool)
        requires
            old(self).wf(),
            old(self).now < u64::MAX,
            old(self).active@.len() + arrivals@.len() <= MAX_FLOWS,
            forall|i: int|
                0 <= i < arrivals@.len() ==> admissible_arrival(
                    #[trigger] arrivals@[i],
                    old(self).capacity@,
                    old(self).now,
                ),
        ensures
            tick_post(*old(self), arrivals@, *final(self), reallocated),
    {
        let now = self.now;
        let ghost cap = self.capacity@;
        let mut incoming = arrivals;
        let n_arrivals = incoming.len();
        let mut merged: Vec<Packet> = Vec::new();
        core::mem::swap(&mut merged, &mut self.active);
        merged.append(&mut incoming);
        let ghost merged_s = merged@;
        let ghost after = stepped_all(merged_s, now);

        let mut kept: Vec<Packet> = Vec::new();
        let mut done_count: usize = 0;
        let ghost completed0 = self.completed@;
        let ghost mut i: int = 0;
        while merged.len() > 0
            invariant
                0 <= i <= merged_s.len(),
                merged@ =~= merged_s.subrange(i, merged_s.len() as int),
                merged_s.len() <= MAX_FLOWS,
                after == stepped_all(merged_s, now),
                forall|j: int|
                    0 <= j < merged_s.len() ==> {
                        let p = #[trigger] merged_s[j];
                        &&& p.wf()
                        &&& !p.spec_completed()
                        &&& !p.is_empty
                        &&& !p.step_err()
                        &&& p.t_arrival <= now
                        &&& p.resource_req@.len() == cap.len()
                    },
                kept@ =~= still_active(stepped_all(merged_s.subrange(0, i), now)),
                self.completed@ =~= completed0 + newly_done(stepped_all(merged_s.subrange(0, i), now)),
                done_count == newly_done(stepped_all(merged_s.subrange(0, i), now)).len(),
                done_count <= i,
                forall|j: int|
                    0 <= j < kept@.len() ==> {
                        let p = #[trigger] kept@[j];
                        &&& p.wf()
                        &&& !p.spec_completed()
                        &&& !p.is_empty
                        &&& !p.step_err()
                        &&& p.t_arrival <= now
                        &&& p.resource_req@.len() == cap.len()
                    },
                forall|j: int|
                    0 <= j < self.completed@.len() ==> {
                        let p = #[trigger] self.completed@[j];
                        &&& p.wf()
                        &&& p.spec_completed()
                    },
                self.capacity@ == cap,
                self.now == now,
                self.algorithm == old(self).algorithm,
            decreases merged@.len(),
        {
            let ghost prefix = merged_s.subrange(0, i);
            let ghost prefix1 = merged_s.subrange(0, i + 1);
            let mut p = merged.remove(0);
            assert(p == merged_s[i]);
            let res = p.step(now);
            let done = match res {
                Ok(d) => d,
                Err(_) => {
                    proof {
                        assert(false);
                    }
                    false
                },
            };
            proof {
                assert(p == stepped(merged_s[i], now));
                assert(prefix1.drop_last() =~= prefix);
                assert(stepped_all(prefix1, now).drop_last() =~= stepped_all(prefix, now));
                assert(stepped_all(prefix1, now).last() == p);
            }
            if done {
                self.completed.push(p);
                done_count = done_count + 1;
            } else {
                kept.push(p);
            }
            proof {
                i = i + 1;
                assert(merged@ =~= merged_s.subrange(i, merged_s.len() as int));
            }
        }
        proof {
            assert(merged_s.subrange(0, merged_s.len() as int) =~= merged_s);
            lemma_partition_len(after);
        }

        let did_arrive = n_arrivals > 0;
        let reallocated = kept.len() > 0 && (did_arrive || done_count > 0);
        if reallocated {
            let ghost kept_s = kept@;
            // Gather the remaining demand vectors and consult the policy once.
            let mut reqs: Vec<Vec<u64>> = Vec::new();
            let mut j: usize = 0;
            while j < kept.len()
                invariant
                    j <= kept@.len(),
                    kept@ == kept_s,
                    reqs@.len() == j,
                    forall|m: int|
                        0 <= m < kept_s.len() ==> (#[trigger] kept_s[m]).wf()
                            && kept_s[m].resource_req@.len() == cap.len(),
                    forall|m: int| 0 <= m < j ==> (#[trigger] reqs@[m])@ == kept_s[m].resource_req@,
                decreases kept@.len() - j,
            {
                let mut row: Vec<u64> = Vec::new();
                let mut k: usize = 0;
                while k < kept[j].resource_req.len()
                    invariant
                        j < kept@.len(),
                        kept@ == kept_s,
                        k <= kept_s[j as int].resource_req@.len(),
                        row@ =~= kept_s[j as int].resource_req@.take(k as int),
                    decreases kept_s[j as int].resource_req@.len() - k,
                {
                    row.push(kept[j].resource_req[k]);
                    proof {
                        assert(row@ =~= kept_s[j as int].resource_req@.take(k as int + 1));
                    }
                    k += 1;
                }
                proof {
                    assert(row@ =~= kept_s[j as int].resource_req@);
                }
                reqs.push(row);
                j += 1;
            }
            proof {
                assert(rows(reqs@) =~= req_rows(kept_s));
                assert(demands_bounded(rows(reqs@)));
                assert(inputs_ok(cap, rows(reqs@)));
            }
            let coeffs = match self.algorithm.allocate(&self.capacity, &reqs) {
                Ok(v) => v,
                Err(_) => {
                    proof {
                        assert(false);
                    }
                    Vec::new()
                },
            };
            let ghost coefs_s = spec_allocate(old(self).algorithm, cap, req_rows(kept_s));

            // Restamp every remaining packet with its scaled demand.
            let mut newactive: Vec<Packet> = Vec::new();
            let mut j2: usize = 0;
            while kept.len() > 0
                invariant
                    j2 == newactive@.len(),
                    j2 + kept@.len() == kept_s.len(),
                    kept_s.len() <= MAX_FLOWS,
                    kept@ =~= kept_s.subrange(j2 as int, kept_s.len() as int),
                    coeffs@.len() == kept_s.len(),
                    forall|m: int| 0 <= m < coeffs@.len() ==> #[trigger] coeffs@[m] <= SCALE,
                    forall|m: int| 0 <= m < coeffs@.len() ==> #[trigger] coeffs@[m] as int
                        == coefs_s[m],
                    forall|m: int|
                        0 <= m < kept_s.len() ==> {
                            let p = #[trigger] kept_s[m];
                            &&& p.wf()
                            &&& !p.spec_completed()
                            &&& !p.is_empty
                            &&& !p.step_err()
                            &&& p.t_arrival <= now
                            &&& p.resource_req@.len() == cap.len()
                        },
                    forall|m: int|
                        0 <= m < j2 ==> stamped_rel(
                            kept_s[m],
                            #[trigger] newactive@[m],
                            coefs_s[m],
                        ),
                    forall|m: int|
                        0 <= m < j2 ==> {
                            let p = #[trigger] newactive@[m];
                            &&& p.wf()
                            &&& !p.spec_completed()
                            &&& !p.is_empty
                            &&& !p.step_err()
                            &&& p.t_arrival <= now
                            &&& p.resource_req@.len() == cap.len()
                        },
                decreases kept@.len(),
            {
                let mut p = kept.remove(0);
                assert(p == kept_s[j2 as int]);
                let coef = coeffs[j2];
                let mut alloc: Vec<u64> = Vec::new();
                let mut k: usize = 0;
                while k < p.resource_req.len()
                    invariant
                        p == kept_s[j2 as int],
                        j2 < kept_s.len(),
                        coef <= SCALE,
                        entries_bounded(p.resource_req@),
                        k <= p.resource_req@.len(),
                        alloc@.len() == k,
                        forall|m: int| 0 <= m < k ==> #[trigger] alloc@[m] == (coef as int
                            * p.resource_req@[m]) as u64,
                        forall|m: int| 0 <= m < k ==> #[trigger] alloc@[m] <= 1000000000000000000,
                    decreases p.resource_req@.len() - k,
                {
                    let d = p.resource_req[k];
                    proof {
                        lemma_mul_upper_bound(coef as int, 1000000, d as int, 1000000000000);
                    }
                    alloc.push(coef * d);
                    k += 1;
                }
                proof {
                    assert(alloc@ =~= p.resource_req@.map_values(
                        |d: u64| (coef as int * d) as u64,
                    ));
                }
                let ar = p.allocate(alloc);
                proof {
                    assert(ar is Ok);
                }
                newactive.push(p);
                proof {
                    assert(stamped_rel(kept_s[j2 as int], newactive@[j2 as int], coefs_s[j2 as int]));
                }
                j2 += 1;
                proof {
                    assert(kept@ =~= kept_s.subrange(j2 as int, kept_s.len() as int));
                }
            }
            self.active = newactive;
        } else {
            self.active = kept;
        }
        self.now = self.now + 1;
        reallocated
    }
}

/// A completed flow is never part of the active set: active flows are not
/// completed, completed flows are.
pub proof fn lemma_completed_never_active(sim: Simulation, i: int, j: int)
    requires
        sim.wf(),
        0 <= i < sim.active@.len(),
        0 <= j < sim.completed@.len(),
    ensures
        sim.active@[i] != sim.completed@[j],
{
    assert(!sim.active@[i].spec_completed());
    assert(sim.completed@[j].spec_completed());
}

/// How many real (non-placeholder) arrivals the first `t` trace slots hold.
pub open spec fn arrivals_in(trace: Seq<Packet>, t: int) -> int
    decreases t,
{
    if t <= 0 {
        0
    } else {
        arrivals_in(trace, t - 1) + if trace[t - 1].is_empty {
            0int
        } else {
            1int
        }
    }
}

/// A trace slot: either a placeholder, or a flow arriving at its tick with
/// demands matching the capacity's dimension.
pub open spec fn trace_slot_ok(p: Packet, cap: Seq<u64>, t: int) -> bool {
    &&& p.wf()
    &&& (!p.is_empty ==> p.t_arrival == t && p.resource_req@.len() == cap.len())
}

/// `p` is a fresh copy of trace slot `slot` for the simulator: same
/// identity, arrival, target and demand, with allocation and accumulated
/// service reset.
pub open spec fn loaded_rel(slot: Packet, p: Packet) -> bool {
    &&& p.id == slot.id
    &&& p.t_arrival == slot.t_arrival
    &&& p.t_departure == 0
    &&& p.resource_req@ == slot.resource_req@
    &&& p.resource_alloc@ == Seq::<u64>::empty()
    &&& p.service_time == slot.service_time
    &&& p.adjusted_service_time == 0
    &&& p.is_empty == slot.is_empty
}

/// The arrivals one trace slot contributes: none for a placeholder, and
/// exactly one freshly loaded packet otherwise.
pub open spec fn arrivals_match(slot: Packet, arr: Seq<Packet>) -> bool {
    if slot.is_empty {
        arr.len() == 0
    } else {
        arr.len() == 1 && loaded_rel(slot, arr[0])
    }
}

/// Trace slot `t` relates consecutive simulation states: one tick of
/// `steps[t]`, ingesting exactly the arrivals of that slot, yields
/// `steps[t + 1]`.
pub open spec fn slot_step_ok(trace: Seq<Packet>, steps: Seq<Simulation>, t: int) -> bool {
    exists|arr: Seq<Packet>, b: bool|
        arrivals_match(trace[t], arr) && #[trigger] tick_post(steps[t], arr, steps[t + 1], b)
}

/// `steps` is the whole simulation, tick by tick: it starts from the
/// empty simulation at tick zero and each consecutive pair is related by
/// one tick ingesting exactly the arrivals of its trace slot.
pub open spec fn run_steps_ok(
    algorithm: Algorithm,
    capacity: Seq<u64>,
    trace: Seq<Packet>,
    steps: Seq<Simulation>,
) -> bool {
    &&& steps.len() == trace.len() + 1
    &&& steps[0].algorithm == algorithm
    &&& steps[0].capacity@ == capacity
    &&& steps[0].active@.len() == 0
    &&& steps[0].completed@.len() == 0
    &&& steps[0].now == 0
    &&& forall|t: int| 0 <= t < trace.len() ==> #[trigger] slot_step_ok(trace, steps, t)
}

/// Runs the whole simulation: one trace slot per tick, at most one arrival
/// per slot (a placeholder slot arrives nothing), for exactly
/// `trace.len()` ticks. Fails with `InfeasibleInput` exactly when some
/// capacity entry is zero.
pub fn run(algorithm: Algorithm, capacity: Vec<u64>, trace: Vec<Packet>) -> (r: Result<
    Simulation,
    SimError,
>)
    requires
        entries_bounded(capacity@),
        trace@.len() <= MAX_FLOWS,
        forall|t: int| 0 <= t < trace@.len() ==> trace_slot_ok(#[trigger] trace@[t], capacity@, t),
    ensures
        r is Ok <==> (forall|k: int| 0 <= k < capacity@.len() ==> #[trigger] capacity@[k] >= 1),
        r is Err ==> r == Result::<Simulation, SimError>::Err(SimError::InfeasibleInput),
        r matches Ok(sim) ==> {
            &&& sim.wf()
            &&& sim.algorithm == algorithm
            &&& sim.capacity@ == capacity@
            &&& sim.now == trace@.len()
            &&& sim.active@.len() + sim.completed@.len() == arrivals_in(
                trace@,
                trace@.len() as int,
            )
            &&& exists|steps: Seq<Simulation>|
                #[trigger] run_steps_ok(algorithm, capacity@, trace@, steps) && steps[trace@.len() as int]
                    == sim
        },
{
    let mut sim = match Simulation::new(algorithm, capacity) {
        Ok(s) => s,
        Err(e) => {
            return Err(e);
        },
    };
    let mut t: usize = 0;
    let ghost mut steps: Seq<Simulation> = seq![sim];
    while t < trace.len()
        invariant
            t <= trace@.len(),
            steps.len() == t + 1,
            steps[0].algorithm == algorithm,
            steps[0].capacity@ == capacity@,
            steps[0].active@.len() == 0,
            steps[0].completed@.len() == 0,
            steps[0].now == 0,
            steps[t as int] == sim,
            forall|u: int| 0 <= u < t ==> #[trigger] slot_step_ok(trace@, steps, u),
            trace@.len() <= MAX_FLOWS,
            forall|u: int|
                0 <= u < trace@.len() ==> trace_slot_ok(#[trigger] trace@[u], sim.capacity@, u),
            sim.wf(),
            sim.algorithm == algorithm,
            sim.capacity@ == capacity@,
            sim.now == t,
            sim.active@.len() <= t,
            sim.active@.len() + sim.completed@.len() == arrivals_in(trace@, t as int),
        decreases trace@.len() - t,
    {
        let mut arrivals: Vec<Packet> = Vec::new();
        if !trace[t].is_empty() {
            let p = trace[t].load_from_sim();
            arrivals.push(p);
        }
        proof {
            assert(forall|i: int|
                0 <= i < arrivals@.len() ==> admissible_arrival(
                    #[trigger] arrivals@[i],
                    sim.capacity@,
                    sim.now,
                ));
            lemma_partition_len(
                stepped_all(sim.active@ + arrivals@, sim.now),
            );
        }
        let ghost pre = sim;
        let ghost arr = arrivals@;
        let reallocated = sim.tick(arrivals);
        proof {
            let steps0 = steps;
            steps = steps.push(sim);
            assert(arrivals_match(trace@[t as int], arr));
            assert(tick_post(pre, arr, sim, reallocated));
            assert(steps[t as int] == pre && steps[t as int + 1] == sim);
            assert forall|u: int| 0 <= u < t + 1 implies #[trigger] slot_step_ok(
                trace@,
                steps,
                u,
            ) by {
                if u == t {
                    assert(arrivals_match(trace@[u], arr) && tick_post(
                        steps[u],
                        arr,
                        steps[u + 1],
                        reallocated,
                    ));
                } else {
                    assert(slot_step_ok(trace@, steps0, u));
                    let (arr2, b2) = choose|arr2: Seq<Packet>, b2: bool|
                        arrivals_match(trace@[u], arr2) && #[trigger] tick_post(
                            steps0[u],
                            arr2,
                            steps0[u + 1],
                            b2,
                        );
                    assert(steps[u] == steps0[u] && steps[u + 1] == steps0[u + 1]);
                    assert(arrivals_match(trace@[u], arr2) && tick_post(
                        steps[u],
                        arr2,
                        steps[u + 1],
                        b2,
                    ));
                }
            }
            let after = stepped_all(pre.active@ + arr, pre.now);
            lemma_partition_len(after);
            assert(sim.active@.len() == still_active(after).len());
            assert(still_active(after).len() <= after.len());
            assert(sim.completed@.len() == pre.completed@.len() + newly_done(after).len());
            assert(after.len() == pre.active@.len() + arr.len());
            assert(arr.len() == arrivals_in(trace@, t as int + 1) - arrivals_in(trace@, t as int));
        }
        t += 1;
    }
    proof {
        assert(run_steps_ok(algorithm, capacity@, trace@, steps));
        assert(steps[trace@.len() as int] == sim);
    }
    Ok(sim)
}

} // verus!
