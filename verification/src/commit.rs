//! The commit counters: one per namespace, counting its writes.
//!
//! A namespace's counter starts at zero and is raised by one for every put,
//! every delete and every lease that is granted, so the numbers handed out in
//! a namespace strictly increase and none is used twice.

use vstd::prelude::*;
use vstd::string::*;
use crate::assoc::{distinct_keys, has_key, lemma_to_map_dom, lemma_to_map_push, lemma_to_map_update, lemma_to_map_value, to_map};

verus! {

/// The counter of one namespace.
#[derive(Debug)]
pub struct Counter {
    ns: String,
    value: u64,
}

/// The counters of all namespaces.
#[derive(Debug)]
pub struct CommitClock {
    counters: Vec<Counter>,
}

/// The counters as pairs of namespace and value.
pub closed spec fn counter_pairs(v: Seq<Counter>) -> Seq<(Seq<char>, u64)> {
    v.map_values(|c: Counter| (c.ns@, c.value))
}

/// The value of the counter of `ns` in `m`: zero where the namespace was
/// never written.
pub open spec fn counter_of(m: Map<Seq<char>, u64>, ns: Seq<char>) -> u64 {
    if m.contains_key(ns) {
        m[ns]
    } else {
        0
    }
}

impl View for CommitClock {
    type V = Map<Seq<char>, u64>;

    closed spec fn view(&self) -> Map<Seq<char>, u64> {
        to_map(counter_pairs(self.counters@))
    }
}

impl CommitClock {
    /// Whether no namespace has two counters.
    pub closed spec fn wf(&self) -> bool {
        distinct_keys(counter_pairs(self.counters@))
    }

    /// Counters for a store that was never written.
    pub fn new() -> (clock: CommitClock)
        ensures
            clock.wf(),
            clock@ == Map::<Seq<char>, u64>::empty(),
    {
        let clock = CommitClock { counters: Vec::new() };
        assert(counter_pairs(clock.counters@) =~= Seq::empty());
        clock
    }

    fn find(&self, ns: &str) -> (at: Option<usize>)
        ensures
            match at {
                Some(i) => i < self.counters@.len() && self.counters@[i as int].ns@ == ns@,
                None => !has_key(counter_pairs(self.counters@), ns@),
            },
    {
        let mut i: usize = 0;
        while i < self.counters.len()
            invariant
                i <= self.counters@.len(),
                forall|j: int| 0 <= j < i ==> self.counters@[j].ns@ != ns@,
            decreases self.counters@.len() - i,
        {
            if self.counters[i].ns.as_str().eq(ns) {
                return Some(i);
            }
            i += 1;
        }
        assert(!has_key(counter_pairs(self.counters@), ns@)) by {
            let s = counter_pairs(self.counters@);
            if has_key(s, ns@) {
                let j = choose|j: int| 0 <= j < s.len() && (#[trigger] s[j]).0 == ns@;
                assert(self.counters@[j].ns@ == ns@);
            }
        }
        None
    }

    /// The last number handed out in `ns`; zero where there was none.
    pub fn current(&self, ns: &str) -> (value: u64)
        requires
            self.wf(),
        ensures
            value == counter_of(self@, ns@),
    {
        let ghost s = counter_pairs(self.counters@);
        proof {
            lemma_to_map_dom(s, ns@);
        }
        match self.find(ns) {
            Some(i) => {
                proof {
                    lemma_to_map_value(s, i as int);
                }
                self.counters[i].value
            },
            None => 0,
        }
    }

    /// Hands out the next number of `ns`: one more than the last. `None`,
    /// with nothing changed, where the counter has reached the end of its
    /// range.
    pub fn bump(&mut self, ns: &str) -> (next: Option<u64>)
        requires
            old(self).wf(),
        ensures
            final(self).wf(),
            match next {
                Some(n) => counter_of(old(self)@, ns@) < u64::MAX && n == counter_of(
                    old(self)@,
                    ns@,
                ) + 1 && final(self)@ == old(self)@.insert(ns@, n),
                None => counter_of(old(self)@, ns@) == u64::MAX && final(self)@ == old(self)@,
            },
    {
        let ghost s = counter_pairs(self.counters@);
        proof {
            lemma_to_map_dom(s, ns@);
        }
        match self.find(ns) {
            Some(i) => {
                proof {
                    lemma_to_map_value(s, i as int);
                }
                let v: u64 = self.counters[i].value;
                if v == u64::MAX {
                    return None;
                }
                self.counters[i].value = v + 1;
                proof {
                    lemma_to_map_update(s, i as int, (v + 1) as u64);
                    assert(counter_pairs(self.counters@) =~= s.update(
                        i as int,
                        (ns@, (v + 1) as u64),
                    ));
                }
                Some(v + 1)
            },
            None => {
                self.counters.push(Counter { ns: ns.to_owned(), value: 1 });
                proof {
                    lemma_to_map_push(s, ns@, 1u64);
                    assert(counter_pairs(self.counters@) =~= s.push((ns@, 1u64)));
                }
                Some(1)
            },
        }
    }

    /// Raises the counter of `ns` to `seq` where it is lower, so that numbers
    /// seen in a replayed log are not handed out again.
    pub fn raise_to(&mut self, ns: &str, seq: u64)
        requires
            old(self).wf(),
        ensures
            final(self).wf(),
            final(self)@ == old(self)@.insert(
                ns@,
                if counter_of(old(self)@, ns@) >= seq {
                    counter_of(old(self)@, ns@)
                } else {
                    seq
                },
            ),
    {
        let ghost s = counter_pairs(self.counters@);
        proof {
            lemma_to_map_dom(s, ns@);
        }
        match self.find(ns) {
            Some(i) => {
                proof {
                    lemma_to_map_value(s, i as int);
                }
                let v: u64 = self.counters[i].value;
                let w: u64 = if v >= seq {
                    v
                } else {
                    seq
                };
                self.counters[i].value = w;
                proof {
                    lemma_to_map_update(s, i as int, w);
                    assert(counter_pairs(self.counters@) =~= s.update(i as int, (ns@, w)));
                }
            },
            None => {
                self.counters.push(Counter { ns: ns.to_owned(), value: seq });
                proof {
                    lemma_to_map_push(s, ns@, seq);
                    assert(counter_pairs(self.counters@) =~= s.push((ns@, seq)));
                }
            },
        }
    }
}

} // verus!
