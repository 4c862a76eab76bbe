//! Shuttle timetables: the earliest departure of each bus after a given
//! time, over a timetable where some slots are out of service.

use vstd::prelude::*;

verus! {

/// The arrival time and the timetable: one entry per slot, out-of-service
/// slots empty.
pub struct Prediction {
    pub when: usize,
    pub timetable: Vec<Option<usize>>,
}

/// The pair records a bus of the timetable and the first departure of that
/// bus one can catch after arriving at `when`.
pub open spec fn wait_entry_ok(t: Seq<Option<usize>>, e: (usize, usize), when: usize) -> bool {
    &&& exists|i: int| 0 <= i < t.len() && (#[trigger] t[i]) == Some(e.0)
    &&& e.1 == (when as int / e.0 as int + 1) * e.0
}

/// Some recorded pair is about the bus in timetable slot `i`.
pub open spec fn slot_recorded(r: Seq<(usize, usize)>, t: Seq<Option<usize>>, i: int) -> bool {
    exists|k: int| 0 <= k < r.len() && (#[trigger] r[k]).0 == t[i]->0
}

impl Prediction {
    /// For each bus in service, the first multiple of its id at or after
    /// `when + 1` (the next departure one can catch), as (bus, departure)
    /// pairs in timetable order.
    pub fn build_wait(&self) -> (r: Vec<(usize, usize)>)
        requires
            forall|i: int|
                0 <= i < self.timetable@.len() ==> ((#[trigger] self.timetable@[i]) matches Some(b)
                    ==> b >= 1 && (self.when / b + 1) * b <= usize::MAX),
        ensures
            r@.len() <= self.timetable@.len(),
            forall|k: int|
                0 <= k < r@.len() ==> wait_entry_ok(self.timetable@, #[trigger] r@[k], self.when),
            forall|i: int|
                0 <= i < self.timetable@.len() && (#[trigger] self.timetable@[i]) is Some
                    ==> slot_recorded(r@, self.timetable@, i),
    {
        let ghost t = self.timetable@;
        let mut r: Vec<(usize, usize)> = Vec::new();
        let mut i: usize = 0;
        let n = self.timetable.len();
        while i < n
            invariant
                i <= n,
                n == t.len(),
                t == self.timetable@,
                r@.len() <= i,
                forall|j: int|
                    0 <= j < t.len() ==> ((#[trigger] t[j]) matches Some(b) ==> b >= 1 && (
                    self.when / b + 1) * b <= usize::MAX),
                forall|k: int|
                    0 <= k < r@.len() ==> wait_entry_ok(t, #[trigger] r@[k], self.when),
                forall|j: int|
                    0 <= j < i && (#[trigger] t[j]) is Some ==> slot_recorded(r@, t, j),
            decreases n - i,
        {
            match self.timetable[i] {
                Some(bus) => {
                    let ghost prev = r@;
                    proof {
                        assert(t[i as int] == Some(bus));
                        assert(self.when as int / bus as int + 1 <= (self.when as int
                            / bus as int + 1) * bus) by (nonlinear_arith)
                            requires
                                bus >= 1,
                                self.when >= 0,
                        ;
                    }
                    let depart = (self.when / bus + 1) * bus;
                    r.push((bus, depart));
                    proof {
                        assert(r@[r@.len() - 1] == (bus, depart));
                        assert(t[i as int] == Some(bus));
                        assert(wait_entry_ok(t, r@[r@.len() - 1], self.when));
                        assert forall|j: int|
                            0 <= j < i + 1 && (#[trigger] t[j]) is Some implies slot_recorded(
                            r@,
                            t,
                            j,
                        ) by {
                            if j < i {
                                assert(slot_recorded(prev, t, j));
                                let k = choose|k: int|
                                    0 <= k < prev.len() && (#[trigger] prev[k]).0 == t[j]->0;
                                assert(r@[k].0 == t[j]->0);
                            } else {
                                assert(r@[r@.len() - 1].0 == t[j]->0);
                            }
                        }
                    }
                },
                None => {},
            }
            i = i + 1;
        }
        r
    }

    /// The timetable with out-of-service slots replaced by 1 (a bus that
    /// departs whenever needed).
    pub fn build_sync_table(&self) -> (r: Vec<usize>)
        ensures
            r@.len() == self.timetable@.len(),
            forall|i: int|
                0 <= i < r@.len() ==> r@[i] == (match self.timetable@[i] {
                    Some(b) => b,
                    None => 1usize,
                }),
    {
        let mut r: Vec<usize> = Vec::new();
        let mut i: usize = 0;
        let n = self.timetable.len();
        while i < n
            invariant
                i <= n,
                n == self.timetable@.len(),
                r@.len() == i,
                forall|j: int|
                    0 <= j < i ==> r@[j] == (match self.timetable@[j] {
                        Some(b) => b,
                        None => 1usize,
                    }),
            decreases n - i,
        {
            match self.timetable[i] {
                Some(b) => r.push(b),
                None => r.push(1),
            }
            i = i + 1;
        }
        r
    }
}


impl Prediction {
    /// The first bus one can catch: a bus of the timetable whose next
    /// departure after `when` is no later than any other bus's, returned
    /// with the wait for it.
    pub fn earliest_bus(&self) -> (r: (usize, usize))
        requires
            exists|i: int|
                0 <= i < self.timetable@.len() && (#[trigger] self.timetable@[i]) is Some,
            forall|i: int|
                0 <= i < self.timetable@.len() ==> ((#[trigger] self.timetable@[i]) matches Some(b)
                    ==> b >= 1 && (self.when / b + 1) * b <= usize::MAX),
        ensures
            wait_entry_ok(self.timetable@, (r.0, (r.1 + self.when) as usize), self.when),
            forall|i: int|
                0 <= i < self.timetable@.len() ==> ((#[trigger] self.timetable@[i]) matches Some(b)
                    ==> (self.when as int / b as int + 1) * b >= r.1 + self.when),
    {
        let ghost t = self.timetable@;
        let waits = self.build_wait();
        proof {
            let wi = choose|i: int| 0 <= i < t.len() && (#[trigger] t[i]) is Some;
            assert(slot_recorded(waits@, t, wi));
        }
        let n = waits.len();
        let mut best: (usize, usize) = waits[0];
        let mut k: usize = 1;
        proof {
            assert(wait_entry_ok(t, waits@[0], self.when));
        }
        while k < n
            invariant
                1 <= k <= n,
                n == waits@.len(),
                t == self.timetable@,
                forall|j: int| 0 <= j < waits@.len() ==> wait_entry_ok(t, #[trigger] waits@[j], self.when),
                wait_entry_ok(t, best, self.when),
                forall|j: int| 0 <= j < k ==> best.1 <= (#[trigger] waits@[j]).1,
            decreases n - k,
        {
            if waits[k].1 < best.1 {
                best = waits[k];
            }
            k = k + 1;
        }
        proof {
            // the chosen departure is past the arrival time, so the wait
            // is well defined
            assert(best.1 == (self.when as int / best.0 as int + 1) * best.0);
            vstd::arithmetic::div_mod::lemma_fundamental_div_mod(
                self.when as int,
                best.0 as int,
            );
            assert((self.when as int / best.0 as int + 1) * best.0 == (self.when as int
                / best.0 as int) * best.0 + best.0) by (nonlinear_arith);
            assert(best.1 >= self.when + 1 - best.0 + best.0);
            // every in-service bus departs no earlier than the best found
            assert forall|i: int|
                0 <= i < t.len() implies ((#[trigger] t[i]) matches Some(b) ==> (self.when as int
                / b as int + 1) * b >= best.1) by {
                if t[i] is Some {
                    assert(slot_recorded(waits@, t, i));
                    let j = choose|j: int|
                        0 <= j < waits@.len() && (#[trigger] waits@[j]).0 == t[i]->0;
                    assert(wait_entry_ok(t, waits@[j], self.when));
                    assert(best.1 <= waits@[j].1);
                }
            }
        }
        (best.0, best.1 - self.when)
    }
}

} // verus!
