//! The timer actor's decisions: what an expired schedule asks for, and
//! which receivers it watches as schedules start and end.

use vstd::prelude::*;
use crate::seq_facts::lemma_take_all;

verus! {

/// The kind of an expired schedule; intervals in nanoseconds.
#[derive(Debug, Clone, Copy, PartialEq, Eq, Structural)]
pub enum ExpiredKind {
    /// A message sent once.
    Once,
    /// A block run once.
    OnceWith,
    /// A message sent again after every interval.
    FixedDelay { interval: u128 },
    /// A block run again after every interval.
    FixedDelayWith { interval: u128 },
}

/// What the timer actor does with an expired schedule.
#[derive(Debug, Clone, Copy, PartialEq, Eq, Structural)]
pub struct ExpiredAction {
    /// Send the schedule's message to its receiver (else run its block).
    pub send_message: bool,
    /// Schedule it again after this delay (its index then names the new
    /// entry of the queue).
    pub reschedule_after: Option<u128>,
    /// Drop the schedule's index.
    pub drop_index: bool,
    /// Stop watching the receiver for this schedule.
    pub unwatch: bool,
}

/// What an expired schedule asks for: one sent once is delivered, its
/// index dropped and its receiver no longer watched for it; a block run
/// once is run and its index dropped; a fixed-delay schedule is delivered
/// or run and scheduled again after its interval.
pub fn expired_step(kind: ExpiredKind) -> (r: ExpiredAction)
    ensures
        r == (match kind {
            ExpiredKind::Once => ExpiredAction {
                send_message: true,
                reschedule_after: None,
                drop_index: true,
                unwatch: true,
            },
            ExpiredKind::OnceWith => ExpiredAction {
                send_message: false,
                reschedule_after: None,
                drop_index: true,
                unwatch: false,
            },
            ExpiredKind::FixedDelay { interval } => ExpiredAction {
                send_message: true,
                reschedule_after: Some(interval),
                drop_index: false,
                unwatch: false,
            },
            ExpiredKind::FixedDelayWith { interval } => ExpiredAction {
                send_message: false,
                reschedule_after: Some(interval),
                drop_index: false,
                unwatch: false,
            },
        }),
{
    match kind {
        ExpiredKind::Once => ExpiredAction { send_message: true, reschedule_after: None, drop_index: true, unwatch: true },
        ExpiredKind::OnceWith => ExpiredAction {
            send_message: false,
            reschedule_after: None,
            drop_index: true,
            unwatch: false,
        },
        ExpiredKind::FixedDelay { interval } => ExpiredAction {
            send_message: true,
            reschedule_after: Some(interval),
            drop_index: false,
            unwatch: false,
        },
        ExpiredKind::FixedDelayWith { interval } => ExpiredAction {
            send_message: false,
            reschedule_after: Some(interval),
            drop_index: false,
            unwatch: false,
        },
    }
}

/// The indexes other than `x`, in order.
pub open spec fn without(s: Seq<u64>, x: u64) -> Seq<u64>
    decreases s.len(),
{
    if s.len() == 0 {
        Seq::empty()
    } else if s.last() == x {
        without(s.drop_last(), x)
    } else {
        without(s.drop_last(), x).push(s.last())
    }
}

/// The receivers left watched, and those to stop watching, after the
/// schedule `index` ends: it is dropped from every receiver's indexes, and
/// a receiver left with none is no longer watched (both in order).
pub open spec fn after_unwatch(w: Seq<(u64, Seq<u64>)>, index: u64) -> (Seq<(u64, Seq<u64>)>, Seq<u64>)
    decreases w.len(),
{
    if w.len() == 0 {
        (Seq::empty(), Seq::empty())
    } else {
        let before = after_unwatch(w.drop_last(), index);
        let rest = without(w.last().1, index);
        if rest.len() > 0 {
            (before.0.push((w.last().0, rest)), before.1)
        } else {
            (before.0, before.1.push(w.last().0))
        }
    }
}

/// The receivers after `receiver` is watched for schedule `index`: the
/// index joins the receiver's indexes (where it is not there yet), or the
/// receiver is added with that index alone.
pub open spec fn after_watch(w: Seq<(u64, Seq<u64>)>, receiver: u64, index: u64) -> Seq<(u64, Seq<u64>)> {
    if exists|k: int| 0 <= k < w.len() && w[k].0 == receiver {
        let k = choose|k: int| 0 <= k < w.len() && w[k].0 == receiver;
        if w[k].1.contains(index) {
            w
        } else {
            w.update(k, (receiver, w[k].1.push(index)))
        }
    } else {
        w.push((receiver, seq![index]))
    }
}

/// No receiver is listed twice.
pub open spec fn receivers_distinct(w: Seq<(u64, Seq<u64>)>) -> bool {
    forall|i: int, j: int| 0 <= i < j < w.len() ==> #[trigger] w[i].0 != #[trigger] w[j].0
}

proof fn lemma_unwatch_step(w: Seq<(u64, Seq<u64>)>, i: int, index: u64)
    requires
        0 <= i < w.len(),
    ensures
        after_unwatch(w.take(i + 1), index) == (if without(w[i].1, index).len() > 0 {
            (after_unwatch(w.take(i), index).0.push((w[i].0, without(w[i].1, index))), after_unwatch(w.take(i), index).1)
        } else {
            (after_unwatch(w.take(i), index).0, after_unwatch(w.take(i), index).1.push(w[i].0))
        }),
{
    let t = w.take(i + 1);
    assert(t.drop_last() =~= w.take(i));
    assert(t.last() == w[i]);
}

/// The receivers the timer actor watches, each with the indexes of its
/// schedules.
pub struct WatchedReceivers {
    entries: Vec<(u64, Vec<u64>)>,
}

/// The entries by their views.
pub open spec fn entry_views(v: Seq<(u64, Vec<u64>)>) -> Seq<(u64, Seq<u64>)> {
    v.map_values(|e: (u64, Vec<u64>)| (e.0, e.1@))
}

impl View for WatchedReceivers {
    type V = Seq<(u64, Seq<u64>)>;

    closed spec fn view(&self) -> Seq<(u64, Seq<u64>)> {
        entry_views(self.entries@)
    }
}

/// The indexes other than `x`.
fn without_index(s: &Vec<u64>, x: u64) -> (r: Vec<u64>)
    ensures
        r@ == without(s@, x),
{
    let mut r: Vec<u64> = Vec::new();
    let mut i: usize = 0;
    assert(s@.take(0) =~= Seq::<u64>::empty());
    while i < s.len()
        invariant
            0 <= i <= s.len(),
            r@ == without(s@.take(i as int), x),
        decreases s.len() - i,
    {
        assert(s@.take(i + 1).drop_last() =~= s@.take(i as int));
        assert(s@.take(i + 1).last() == s@[i as int]);
        if s[i] != x {
            r.push(s[i]);
        }
        i = i + 1;
    }
    proof {
        lemma_take_all(s@);
    }
    r
}

impl WatchedReceivers {
    /// No receivers.
    pub fn new() -> (r: Self)
        ensures
            r@ == Seq::<(u64, Seq<u64>)>::empty(),
    {
        let r = WatchedReceivers { entries: Vec::new() };
        assert(r@ =~= Seq::<(u64, Seq<u64>)>::empty());
        r
    }

    /// Watches `receiver` for the schedule `index`; the result says whether
    /// the receiver is newly watched (so that the runtime watches it).
    pub fn watch(&mut self, receiver: u64, index: u64) -> (newly: bool)
        requires
            receivers_distinct(old(self)@),
        ensures
            final(self)@ == after_watch(old(self)@, receiver, index),
            receivers_distinct(final(self)@),
            newly == !(exists|k: int| 0 <= k < old(self)@.len() && old(self)@[k].0 == receiver),
    {
        let ghost w = self@;
        let mut k: usize = 0;
        while k < self.entries.len()
            invariant
                0 <= k <= self.entries.len(),
                w == self@,
                w == old(self)@,
                receivers_distinct(w),
                forall|j: int| 0 <= j < k ==> w[j].0 != receiver,
            decreases self.entries.len() - k,
        {
            assert(w[k as int] == (self.entries@[k as int].0, self.entries@[k as int].1@));
            if self.entries[k].0 == receiver {
                let known = contains_index(&self.entries[k].1, index);
                proof {
                    assert(w[k as int].0 == receiver);
                    assert(w[k as int].1 == self.entries@[k as int].1@);
                    let c = choose|c: int| 0 <= c < w.len() && w[c].0 == receiver;
                    assert(c == k) by {
                        if c < k {
                            assert(w[c].0 != receiver);
                        } else if c > k {
                            assert(w[k as int].0 != w[c].0);
                        }
                    }
                }
                if !known {
                    let mut entries: Vec<(u64, Vec<u64>)> = Vec::new();
                    std::mem::swap(&mut entries, &mut self.entries);
                    let (r, mut indexes) = entries.remove(k);
                    indexes.push(index);
                    entries.insert(k, (r, indexes));
                    self.entries = entries;
                    proof {
                        assert(self@ =~= w.update(k as int, (receiver, w[k as int].1.push(index))));
                    }
                }
                assert(self@ == after_watch(w, receiver, index));
                return false;
            }
            k = k + 1;
        }
        let one = vec![index];
        assert(one@ =~= seq![index]);
        let ghost before = self.entries@;
        self.entries.push((receiver, one));
        proof {
            assert(self.entries@ == before.push((receiver, one)));
            assert(entry_views(self.entries@) =~= entry_views(before).push((receiver, one@)));
            assert(self@ =~= w.push((receiver, seq![index])));
        }
        true
    }

    /// Ends the schedule `index`: it is dropped from every receiver's
    /// indexes, and the receivers left with none are no longer watched;
    /// they are returned, in order, for the runtime to unwatch.
    pub fn unwatch_index(&mut self, index: u64) -> (unwatched: Vec<u64>)
        ensures
            final(self)@ == after_unwatch(old(self)@, index).0,
            unwatched@ == after_unwatch(old(self)@, index).1,
    {
        let ghost w = self@;
        let mut old_entries: Vec<(u64, Vec<u64>)> = Vec::new();
        std::mem::swap(&mut old_entries, &mut self.entries);
        assert(entry_views(old_entries@) == w);
        let mut kept: Vec<(u64, Vec<u64>)> = Vec::new();
        let mut dropped: Vec<u64> = Vec::new();
        let mut i: usize = 0;
        proof {
            assert(w.take(0) =~= Seq::<(u64, Seq<u64>)>::empty());
            assert(entry_views(kept@) =~= Seq::<(u64, Seq<u64>)>::empty());
        }
        while i < old_entries.len()
            invariant
                0 <= i <= old_entries.len(),
                entry_views(old_entries@) == w,
                (entry_views(kept@), dropped@) == after_unwatch(w.take(i as int), index),
            decreases old_entries.len() - i,
        {
            let r = old_entries[i].0;
            let rest = without_index(&old_entries[i].1, index);
            proof {
                assert(w[i as int] == (r, old_entries@[i as int].1@));
                assert(w.take(i + 1).drop_last() =~= w.take(i as int));
                assert(w.take(i + 1).last() == w[i as int]);
            }
            proof {
                lemma_unwatch_step(w, i as int, index);
            }
            let ghost prev = after_unwatch(w.take(i as int), index);
            let ghost next = after_unwatch(w.take(i + 1), index);
            assert(rest@ == without(w[i as int].1, index));
            if rest.len() > 0 {
                let ghost kv = entry_views(kept@);
                let ghost rv = rest@;
                kept.push((r, rest));
                proof {
                    assert(entry_views(kept@) =~= kv.push((r, rv)));
                    assert(next == (prev.0.push((r, rv)), prev.1));
                }
            } else {
                dropped.push(r);
                assert(next == (prev.0, prev.1.push(r)));
            }
            i = i + 1;
        }
        proof {
            lemma_take_all(w);
        }
        self.entries = kept;
        dropped
    }

    /// Stops watching every receiver (all schedules are cancelled); the
    /// receivers are returned, in order, for the runtime to unwatch.
    pub fn clear(&mut self) -> (unwatched: Vec<u64>)
        ensures
            final(self)@ == Seq::<(u64, Seq<u64>)>::empty(),
            unwatched@ == old(self)@.map_values(|e: (u64, Seq<u64>)| e.0),
    {
        let ghost w = self@;
        let mut out: Vec<u64> = Vec::new();
        let mut i: usize = 0;
        while i < self.entries.len()
            invariant
                0 <= i <= self.entries.len(),
                w == self@,
                out@ == w.take(i as int).map_values(|e: (u64, Seq<u64>)| e.0),
            decreases self.entries.len() - i,
        {
            out.push(self.entries[i].0);
            proof {
                assert(w[i as int].0 == self.entries@[i as int].0);
                assert(w.take(i + 1).map_values(|e: (u64, Seq<u64>)| e.0) =~= w.take(i as int).map_values(
                    |e: (u64, Seq<u64>)| e.0,
                ).push(w[i as int].0));
            }
            i = i + 1;
        }
        proof {
            lemma_take_all(w);
        }
        self.entries = Vec::new();
        assert(self@ =~= Seq::<(u64, Seq<u64>)>::empty());
        out
    }
}

/// Whether `x` is among the indexes.
fn contains_index(s: &Vec<u64>, x: u64) -> (r: bool)
    ensures
        r == s@.contains(x),
{
    let mut i: usize = 0;
    while i < s.len()
        invariant
            0 <= i <= s.len(),
            forall|j: int| 0 <= j < i ==> s@[j] != x,
        decreases s.len() - i,
    {
        if s[i] == x {
            assert(s@[i as int] == x);
            return true;
        }
        i = i + 1;
    }
    false
}

} // verus!
