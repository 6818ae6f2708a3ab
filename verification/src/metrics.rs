//! Counters of operations and of the time they took.

use vstd::prelude::*;
use crate::keys::{compare_keys, KeyOrder};

verus! {

/// What was counted for one operation.
#[derive(Debug)]
pub struct OperationStats {
    pub name: String,
    pub count: u64,
    /// The time spent in the operation, in nanoseconds.
    pub total_duration: u128,
    /// The time spent in one run of the operation on average, in nanoseconds.
    pub average_duration: u128,
}

/// A copy of the counters at one moment.
#[derive(Debug)]
pub struct MetricsSnapshot {
    pub memory_usage_bytes: usize,
    pub operation_stats: Vec<OperationStats>,
}

/// The totals of one operation.
pub struct Totals {
    pub count: nat,
    pub nanos: nat,
}

#[derive(Debug)]
struct Counter {
    name: String,
    count: u64,
    nanos: u128,
}

/// The counters.
#[derive(Debug)]
pub struct PerformanceMetrics {
    counters: Vec<Counter>,
    memory_usage: usize,
}

/// The smaller of a number and the largest `u64`.
pub open spec fn cap_u64(n: nat) -> u64 {
    if n > u64::MAX {
        u64::MAX
    } else {
        n as u64
    }
}

/// The smaller of a number and the largest `u128`.
pub open spec fn cap_u128(n: nat) -> u128 {
    if n > u128::MAX {
        u128::MAX
    } else {
        n as u128
    }
}

impl PerformanceMetrics {
    /// The position of the counter of an operation.
    pub closed spec fn position(&self, name: Seq<char>) -> Option<int> {
        if exists|i: int| 0 <= i < self.counters@.len() && (#[trigger] self.counters@[i]).name@ == name {
            Some(
                choose|i: int|
                    0 <= i < self.counters@.len() && (#[trigger] self.counters@[i]).name@ == name,
            )
        } else {
            None
        }
    }

    /// How often an operation was recorded; counting stops at the largest `u64`.
    pub closed spec fn count(&self, name: Seq<char>) -> u64 {
        match self.position(name) {
            Some(i) => self.counters@[i].count,
            None => 0,
        }
    }

    /// The time recorded for an operation, in nanoseconds; adding stops at
    /// the largest `u128`.
    pub closed spec fn nanos(&self, name: Seq<char>) -> u128 {
        match self.position(name) {
            Some(i) => self.counters@[i].nanos,
            None => 0,
        }
    }

    /// The memory in use, as last reported.
    pub closed spec fn memory(&self) -> usize {
        self.memory_usage
    }

    /// The invariant: no operation has two counters.
    pub closed spec fn wf(&self) -> bool {
        forall|i: int, j: int|
            0 <= i < j < self.counters@.len() ==> (#[trigger] self.counters@[i]).name@ != (
            #[trigger] self.counters@[j]).name@
    }

    pub fn new() -> (r: Self)
        ensures
            r.wf(),
            r.memory() == 0,
            r.names() == Seq::<Seq<char>>::empty(),
            forall|name: Seq<char>| r.count(name) == 0 && r.nanos(name) == 0,
    {
        let r = PerformanceMetrics { counters: Vec::new(), memory_usage: 0 };
        proof {
            assert(r.names() =~= Seq::<Seq<char>>::empty());
        }
        r
    }

    /// Where the counter of an operation stands, if it has one.
    fn find(&self, operation: &str) -> (r: Option<usize>)
        ensures
            match r {
                Some(i) => i < self.counters@.len() && self.counters@[i as int].name@ == operation@,
                None => forall|i: int|
                    0 <= i < self.counters@.len() ==> (#[trigger] self.counters@[i]).name@
                        != operation@,
            },
    {
        let mut i: usize = 0;
        while i < self.counters.len()
            invariant
                i <= self.counters@.len(),
                forall|j: int| 0 <= j < i ==> (#[trigger] self.counters@[j]).name@ != operation@,
            decreases self.counters.len() - i,
        {
            if compare_keys(self.counters[i].name.as_str(), operation) == KeyOrder::Equal {
                return Some(i);
            }
            i += 1;
        }
        None
    }

    /// Counts one run of `operation` that took `duration` nanoseconds.
    pub fn record_operation(&mut self, operation: &str, duration: u64)
        requires
            old(self).wf(),
        ensures
            final(self).wf(),
            final(self).memory() == old(self).memory(),
            final(self).count(operation@) == cap_u64((old(self).count(operation@) + 1) as nat),
            final(self).nanos(operation@) == cap_u128(
                (old(self).nanos(operation@) + duration) as nat,
            ),
            forall|name: Seq<char>|
                name != operation@ ==> #[trigger] final(self).count(name) == old(self).count(name)
                    && final(self).nanos(name) == old(self).nanos(name),
            final(self).names() == if old(self).names().contains(operation@) {
                old(self).names()
            } else {
                old(self).names().push(operation@)
            },
    {
        let ghost before = self.counters@;
        match self.find(operation) {
            Some(i) => {
                let count = self.counters[i].count;
                let nanos = self.counters[i].nanos;
                let next = Counter {
                    name: self.counters[i].name.clone(),
                    count: if count == u64::MAX {
                        u64::MAX
                    } else {
                        count + 1
                    },
                    nanos: if nanos > u128::MAX - duration as u128 {
                        u128::MAX
                    } else {
                        nanos + duration as u128
                    },
                };
                self.counters.set(i, next);
                proof {
                    assert(old(self).names()[i as int] == operation@);
                    assert(self.names() =~= old(self).names());
                    assert forall|a: int, b: int| 0 <= a < b < self.counters@.len() implies (
                    #[trigger] self.counters@[a]).name@ != (#[trigger] self.counters@[b]).name@ by {
                        assert(before[a].name@ != before[b].name@);
                    }
                    assert forall|name: Seq<char>| #[trigger]
                        self.position(name) == old(self).position(name) by {
                        if exists|x: int|
                            0 <= x < before.len() && (#[trigger] before[x]).name@ == name {
                            let x = choose|x: int|
                                0 <= x < before.len() && (#[trigger] before[x]).name@ == name;
                            assert(self.counters@[x].name@ == name);
                            let y = self.position(name).unwrap();
                            let z = old(self).position(name).unwrap();
                            assert(before[y].name@ == name);
                            if y != z {
                                if y < z {
                                    assert(before[y].name@ != before[z].name@);
                                } else {
                                    assert(before[z].name@ != before[y].name@);
                                }
                            }
                        } else {
                            if exists|x: int|
                                0 <= x < self.counters@.len() && (#[trigger] self.counters@[x]).name@
                                    == name {
                                let x = choose|x: int|
                                    0 <= x < self.counters@.len() && (
                                    #[trigger] self.counters@[x]).name@ == name;
                                assert(before[x].name@ == name);
                            }
                        }
                    }
                    let p = self.position(operation@).unwrap();
                    assert(before[i as int].name@ == operation@);
                    if p != i {
                        if p < i {
                            assert(before[p].name@ != before[i as int].name@);
                        } else {
                            assert(before[i as int].name@ != before[p].name@);
                        }
                    }
                    assert forall|name: Seq<char>| name != operation@ implies #[trigger]
                        self.count(name) == old(self).count(name) && self.nanos(name) == old(
                        self,
                    ).nanos(name) by {
                        assert(self.position(name) == old(self).position(name));
                        if self.position(name) is Some {
                            let q = self.position(name).unwrap();
                            assert(q != i);
                        }
                    }
                }
            },
            None => {
                self.counters.push(
                    Counter { name: operation.to_string(), count: 1, nanos: duration as u128 },
                );
                proof {
                    let n = before.len() as int;
                    assert(self.counters@[n].name@ == operation@);
                    assert(self.names() =~= old(self).names().push(operation@));
                    if old(self).names().contains(operation@) {
                        let x = choose|x: int|
                            0 <= x < old(self).names().len() && old(self).names()[x] == operation@;
                        assert(before[x].name@ == operation@);
                    }
                    let p = self.position(operation@).unwrap();
                    if p != n {
                        assert(before[p].name@ == operation@);
                    }
                    assert(old(self).position(operation@) is None);
                    assert forall|name: Seq<char>| name != operation@ implies #[trigger]
                        self.count(name) == old(self).count(name) && self.nanos(name) == old(
                        self,
                    ).nanos(name) by {
                        if exists|x: int|
                            0 <= x < before.len() && (#[trigger] before[x]).name@ == name {
                            let x = choose|x: int|
                                0 <= x < before.len() && (#[trigger] before[x]).name@ == name;
                            assert(self.counters@[x].name@ == name);
                            let y = self.position(name).unwrap();
                            let z = old(self).position(name).unwrap();
                            assert(y < n);
                            assert(before[y].name@ == name);
                            if y != z {
                                if y < z {
                                    assert(before[y].name@ != before[z].name@);
                                } else {
                                    assert(before[z].name@ != before[y].name@);
                                }
                            }
                        } else {
                            if exists|x: int|
                                0 <= x < self.counters@.len() && (#[trigger] self.counters@[x]).name@
                                    == name {
                                let x = choose|x: int|
                                    0 <= x < self.counters@.len() && (
                                    #[trigger] self.counters@[x]).name@ == name;
                                assert(x < n);
                                assert(before[x].name@ == name);
                            }
                        }
                    }
                }
            },
        }
    }

    /// Notes the memory in use.
    pub fn update_memory_usage(&mut self, bytes: usize)
        requires
            old(self).wf(),
        ensures
            final(self).wf(),
            final(self).memory() == bytes,
            final(self).names() == old(self).names(),
            forall|name: Seq<char>|
                #[trigger] final(self).count(name) == old(self).count(name) && final(self).nanos(
                    name,
                ) == old(self).nanos(name),
    {
        self.memory_usage = bytes;
        proof {
            assert forall|name: Seq<char>| #[trigger]
                self.count(name) == old(self).count(name) && self.nanos(name) == old(self).nanos(
                name,
            ) by {
                assert(self.counters == old(self).counters);
                assert(self.position(name) == old(self).position(name));
            }
        }
    }

    /// The counters as they stand: for each operation its count, its time
    /// and the time of one run on average.
    pub fn get_stats(&self) -> (r: MetricsSnapshot)
        requires
            self.wf(),
        ensures
            r.memory_usage_bytes == self.memory(),
            r.operation_stats@.len() == self.len(),
            forall|i: int|
                0 <= i < r.operation_stats@.len() ==> {
                    let s = #[trigger] r.operation_stats@[i];
                    &&& s.name@ == self.names()[i]
                    &&& s.count == self.count(s.name@)
                    &&& s.total_duration == self.nanos(s.name@)
                    &&& s.average_duration == if s.count > 0 {
                        s.total_duration / s.count as u128
                    } else {
                        0
                    }
                },
    {
        let mut stats: Vec<OperationStats> = Vec::new();
        let mut i: usize = 0;
        while i < self.counters.len()
            invariant
                i <= self.counters@.len(),
                stats@.len() == i,
                forall|j: int|
                    0 <= j < i ==> {
                        let s = #[trigger] stats@[j];
                        &&& s.name@ == self.counters@[j].name@
                        &&& s.count == self.counters@[j].count
                        &&& s.total_duration == self.counters@[j].nanos
                        &&& s.average_duration == if s.count > 0 {
                            s.total_duration / s.count as u128
                        } else {
                            0
                        }
                    },
            decreases self.counters.len() - i,
        {
            let c = &self.counters[i];
            let average: u128 = if c.count > 0 {
                c.nanos / c.count as u128
            } else {
                0
            };
            stats.push(
                OperationStats {
                    name: c.name.clone(),
                    count: c.count,
                    total_duration: c.nanos,
                    average_duration: average,
                },
            );
            i += 1;
        }
        proof {
            {
                assert forall|j: int| 0 <= j < stats@.len() implies {
                    let s = #[trigger] stats@[j];
                    &&& s.name@ == self.names()[j]
                    &&& s.count == self.count(s.name@)
                    &&& s.total_duration == self.nanos(s.name@)
                } by {
                    let name = stats@[j].name@;
                    assert(self.counters@[j].name@ == name);
                    let p = self.position(name).unwrap();
                    if p != j {
                        if p < j {
                            assert(self.counters@[p].name@ != self.counters@[j].name@);
                        } else {
                            assert(self.counters@[j].name@ != self.counters@[p].name@);
                        }
                    }
                }
            }
        }
        MetricsSnapshot { memory_usage_bytes: self.memory_usage, operation_stats: stats }
    }

    /// The number of operations that have a counter.
    pub open spec fn len(&self) -> nat {
        self.names().len()
    }

    /// The operations that have a counter, in the order in which each was
    /// recorded first.
    pub closed spec fn names(&self) -> Seq<Seq<char>> {
        Seq::new(self.counters@.len(), |i: int| self.counters@[i].name@)
    }
}

} // verus!
