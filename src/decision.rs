//! Hysteresis state machine that decides when to promote another interface.
use vstd::prelude::*;

use crate::text::str_eq;

verus! {

/// Mathematical model of the failover state: the active interface, if any,
/// and the streak counter of each interface that has one.
pub struct FailoverView {
    pub active: Option<Seq<char>>,
    pub counters: Map<Seq<char>, u32>,
}

/// The streak counter of `name`; an interface without an entry counts zero.
pub open spec fn count_of(counters: Map<Seq<char>, u32>, name: Seq<char>) -> u32 {
    if counters.contains_key(name) {
        counters[name]
    } else {
        0
    }
}

pub open spec fn saturating_inc(c: u32) -> u32 {
    if c < u32::MAX {
        (c + 1) as u32
    } else {
        c
    }
}

/// The decision for one cycle whose best candidate is `best`, with the
/// counters after it. The active interface is left as it was.
pub open spec fn decide_spec(s: FailoverView, best: Seq<char>, threshold: u32) -> (bool, Map<
    Seq<char>,
    u32,
>) {
    match s.active {
        None => (true, s.counters),
        Some(cur) => if cur == best {
            (false, s.counters.insert(cur, 0))
        } else {
            let c = saturating_inc(count_of(s.counters, cur));
            (c >= threshold, s.counters.insert(cur, c))
        },
    }
}

/// One full cycle: the decision, and the switch to `best` when the decision
/// calls for one and switching is enabled. A switch clears every counter.
pub open spec fn cycle_spec(s: FailoverView, best: Seq<char>, threshold: u32, auto_switch: bool) -> (
    bool,
    FailoverView,
) {
    let (sw, counters) = decide_spec(s, best, threshold);
    if sw && auto_switch {
        (true, FailoverView { active: Some(best), counters: Map::empty() })
    } else {
        (sw, FailoverView { active: s.active, counters })
    }
}

/// The state after `k` cycles that all rank `best` first, switching enabled.
pub open spec fn cycles(s: FailoverView, best: Seq<char>, threshold: u32, k: nat) -> FailoverView
    decreases k,
{
    if k == 0 {
        s
    } else {
        cycle_spec(cycles(s, best, threshold, (k - 1) as nat), best, threshold, true).1
    }
}

/// Whether cycle number `k + 1` of such a run decides to switch.
pub open spec fn switches_at(s: FailoverView, best: Seq<char>, threshold: u32, k: nat) -> bool {
    cycle_spec(cycles(s, best, threshold, k), best, threshold, true).0
}

/// Owned failover state: the active interface and per-interface streak counters.
pub struct FailoverState {
    active: Option<String>,
    names: Vec<String>,
    counts: Vec<u32>,
    counters: Ghost<Map<Seq<char>, u32>>,
}

impl View for FailoverState {
    type V = FailoverView;

    closed spec fn view(&self) -> FailoverView {
        FailoverView {
            active: match self.active {
                Some(a) => Some(a@),
                None => None,
            },
            counters: self.counters@,
        }
    }
}

impl FailoverState {
    /// The counter table holds each name once, and agrees with the model.
    pub closed spec fn wf(&self) -> bool {
        &&& self.names.len() == self.counts.len()
        &&& forall|i: int, j: int|
            0 <= i < j < self.names.len() ==> self.names[i]@ != self.names[j]@
        &&& forall|i: int|
            0 <= i < self.names.len() ==> #[trigger] self.counters@.contains_key(self.names[i]@)
                && self.counters@[self.names[i]@] == self.counts[i]
        &&& forall|n: Seq<char>|
            #[trigger] self.counters@.contains_key(n) ==> exists|i: int|
                0 <= i < self.names.len() && self.names[i]@ == n
    }

    /// A state with no active interface and no counters.
    pub fn new() -> (r: FailoverState)
        ensures
            r.wf(),
            r@ == (FailoverView { active: None, counters: Map::empty() }),
    {
        FailoverState {
            active: None,
            names: Vec::new(),
            counts: Vec::new(),
            counters: Ghost(Map::empty()),
        }
    }

    /// The active interface, if any.
    pub fn active_interface(&self) -> (r: Option<&str>)
        ensures
            match r {
                Some(a) => self@.active == Some(a@),
                None => self@.active is None,
            },
    {
        match &self.active {
            Some(a) => Some(a.as_str()),
            None => None,
        }
    }

    /// The streak counter of `name`.
    pub fn failure_count(&self, name: &str) -> (r: u32)
        requires
            self.wf(),
        ensures
            r == count_of(self@.counters, name@),
    {
        match self.find(name) {
            Some(i) => self.counts[i],
            None => 0,
        }
    }

    fn find(&self, name: &str) -> (r: Option<usize>)
        requires
            self.wf(),
        ensures
            match r {
                Some(i) => i < self.names.len() && self.names[i as int]@ == name@,
                None => !self.counters@.contains_key(name@),
            },
    {
        let mut i: usize = 0;
        while i < self.names.len()
            invariant
                self.wf(),
                i <= self.names.len(),
                forall|j: int| 0 <= j < i ==> self.names[j]@ != name@,
            decreases self.names.len() - i,
        {
            if str_eq(self.names[i].as_str(), name) {
                return Some(i);
            }
            i = i + 1;
        }
        None
    }

    fn set_count(&mut self, name: &str, c: u32)
        requires
            old(self).wf(),
        ensures
            final(self).wf(),
            final(self)@ == (FailoverView {
                active: old(self)@.active,
                counters: old(self)@.counters.insert(name@, c),
            }),
    {
        match self.find(name) {
            Some(i) => {
                self.counts.set(i, c);
            },
            None => {
                self.names.push(name.to_owned());
                self.counts.push(c);
            },
        }
        self.counters = Ghost(self.counters@.insert(name@, c));
        proof {
            let names = self.names;
            assert forall|n: Seq<char>| #[trigger] self.counters@.contains_key(n) implies exists|
                i: int,
            |
                0 <= i < names.len() && names[i]@ == n by {
                if n == name@ {
                    if exists|i: int| 0 <= i < names.len() && names[i]@ == n {
                    } else {
                        assert(names[names.len() - 1]@ == n);
                    }
                } else {
                    assert(old(self).counters@.contains_key(n));
                    let i = choose|i: int| 0 <= i < old(self).names.len() && old(self).names[i]@ == n;
                    assert(names[i]@ == n);
                }
            }
        }
    }

    /// Decides whether a cycle whose best candidate is `best` calls for a
    /// switch, and advances or resets the active interface's streak counter.
    pub fn evaluate(&mut self, best: &str, threshold: u32) -> (r: bool)
        requires
            old(self).wf(),
        ensures
            final(self).wf(),
            (r, final(self)@.counters) == decide_spec(old(self)@, best@, threshold),
            final(self)@.active == old(self)@.active,
    {
        let cur: String = match &self.active {
            None => {
                return true;
            },
            Some(a) => a.clone(),
        };
        if str_eq(cur.as_str(), best) {
            self.set_count(cur.as_str(), 0);
            false
        } else {
            let c = self.failure_count(cur.as_str());
            let next: u32 = if c < u32::MAX {
                c + 1
            } else {
                c
            };
            self.set_count(cur.as_str(), next);
            next >= threshold
        }
    }

    /// Records that `best` became the active interface. Counters are cleared
    /// only when the routing change was confirmed.
    pub fn record_switch(&mut self, best: &str, confirmed: bool)
        requires
            old(self).wf(),
        ensures
            final(self).wf(),
            final(self)@.active == Some(best@),
            final(self)@.counters == if confirmed {
                Map::<Seq<char>, u32>::empty()
            } else {
                old(self)@.counters
            },
    {
        self.active = Some(best.to_owned());
        if confirmed {
            self.names = Vec::new();
            self.counts = Vec::new();
            self.counters = Ghost(Map::empty());
        }
    }

    /// Runs one cycle: decides, and when the decision calls for a switch and
    /// `auto_switch` is set, adopts `best` and clears every counter. Returns
    /// the decision.
    pub fn cycle(&mut self, best: &str, threshold: u32, auto_switch: bool) -> (r: bool)
        requires
            old(self).wf(),
        ensures
            final(self).wf(),
            (r, final(self)@) == cycle_spec(old(self)@, best@, threshold, auto_switch),
    {
        let sw = self.evaluate(best, threshold);
        if sw && auto_switch {
            self.record_switch(best, true);
        }
        sw
    }
}

/// With no active interface, the first cycle that has a best candidate
/// switches to it, whatever the threshold.
pub proof fn lemma_first_cycle_adopts_best(s: FailoverView, best: Seq<char>, threshold: u32)
    requires
        s.active is None,
    ensures
        cycle_spec(s, best, threshold, true) == (true, FailoverView {
            active: Some(best),
            counters: Map::empty(),
        }),
{
}

proof fn lemma_streak_counts(s: FailoverView, a: Seq<char>, b: Seq<char>, threshold: u32, k: nat)
    requires
        s.active == Some(a),
        a != b,
        count_of(s.counters, a) == 0,
        k < threshold,
    ensures
        cycles(s, b, threshold, k).active == Some(a),
        count_of(cycles(s, b, threshold, k).counters, a) == k,
    decreases k,
{
    if k > 0 {
        lemma_streak_counts(s, a, b, threshold, (k - 1) as nat);
    }
}

/// While the active interface `a` is outranked by `b`, the first
/// `threshold - 1` cycles do not switch; cycle number `threshold` switches to
/// `b` and clears every counter.
pub proof fn lemma_hysteresis(s: FailoverView, a: Seq<char>, b: Seq<char>, threshold: u32)
    requires
        s.active == Some(a),
        a != b,
        count_of(s.counters, a) == 0,
        threshold >= 1,
    ensures
        forall|k: nat| k + 1 < threshold ==> !#[trigger] switches_at(s, b, threshold, k),
        switches_at(s, b, threshold, (threshold - 1) as nat),
        cycles(s, b, threshold, threshold as nat) == (FailoverView {
            active: Some(b),
            counters: Map::empty(),
        }),
{
    assert forall|k: nat| k + 1 < threshold implies !#[trigger] switches_at(
        s,
        b,
        threshold,
        k,
    ) by {
        lemma_streak_counts(s, a, b, threshold, k);
    }
    lemma_streak_counts(s, a, b, threshold, (threshold - 1) as nat);
}

/// When the active interface `a` is ranked best again, its counter returns
/// to zero without a switch, and a later run of cycles that rank `b` first
/// again needs `threshold` cycles before it switches.
pub proof fn lemma_streak_interrupted(
    s: FailoverView,
    a: Seq<char>,
    b: Seq<char>,
    threshold: u32,
)
    requires
        s.active == Some(a),
        a != b,
        threshold >= 1,
    ensures
        !cycle_spec(s, a, threshold, true).0,
        cycle_spec(s, a, threshold, true).1.active == Some(a),
        count_of(cycle_spec(s, a, threshold, true).1.counters, a) == 0,
        forall|k: nat|
            k + 1 < threshold ==> !#[trigger] switches_at(
                cycle_spec(s, a, threshold, true).1,
                b,
                threshold,
                k,
            ),
        switches_at(cycle_spec(s, a, threshold, true).1, b, threshold, (threshold - 1) as nat),
{
    let s1 = cycle_spec(s, a, threshold, true).1;
    lemma_hysteresis(s1, a, b, threshold);
}

} // verus!
