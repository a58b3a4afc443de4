//! Death watch: which actors an actor watches (each with an optional
//! custom message), which actors watch it, the terminations queued for it,
//! and when it must subscribe to the termination of remote addresses.
//!
//! Actors are named by ids that the runtime gives them; an actor is local
//! when its address is the system's own.

use vstd::prelude::*;

verus! {

/// An actor as death watch sees it: its id and whether it is local.
#[derive(Debug, Clone, Copy, PartialEq, Eq, Structural)]
pub struct WatchedActor {
    pub id: u64,
    pub local: bool,
}

/// What becomes of the subscription to remote address terminations.
#[derive(Debug, Clone, Copy, PartialEq, Eq, Structural)]
pub enum SubscriptionChange {
    Subscribe,
    Unsubscribe,
    Unchanged,
}

/// Why a watch was refused.
#[derive(Debug, Clone, Copy, PartialEq, Eq, Structural)]
pub enum WatchError {
    /// An actor cannot watch itself.
    CannotWatchSelf,
    /// The actor is watched already; it must be unwatched first.
    Duplicate,
}

/// Some non-local actor is watched or watches.
pub open spec fn has_non_local<M>(watching: Seq<(WatchedActor, Option<M>)>, watched_by: Seq<WatchedActor>) -> bool {
    (exists|i: int| 0 <= i < watching.len() && !(#[trigger] watching[i]).0.local) || (exists|i: int|
        0 <= i < watched_by.len() && !(#[trigger] watched_by[i]).local)
}

/// The change of subscription around a change of the watch sets that
/// concerns `change` (none: all actors): where it concerns a non-local
/// actor, unsubscribe if non-local actors were there and are gone, else
/// subscribe; leave the subscription alone otherwise.
pub open spec fn subscription_after(change: Option<WatchedActor>, had_before: bool, has_now: bool) -> SubscriptionChange {
    let non_local = match change {
        None => true,
        Some(a) => !a.local,
    };
    if non_local {
        if had_before && !has_now {
            SubscriptionChange::Unsubscribe
        } else {
            SubscriptionChange::Subscribe
        }
    } else {
        SubscriptionChange::Unchanged
    }
}

/// The ids of the watched actors.
pub open spec fn watch_ids<M>(w: Seq<(WatchedActor, Option<M>)>) -> Seq<u64> {
    w.map_values(|e: (WatchedActor, Option<M>)| e.0.id)
}

/// The ids of the actors of a sequence.
pub open spec fn actor_ids(w: Seq<WatchedActor>) -> Seq<u64> {
    w.map_values(|a: WatchedActor| a.id)
}

/// The ids of the queued terminations.
pub open spec fn queue_ids<M>(q: Seq<(u64, Option<M>)>) -> Seq<u64> {
    q.map_values(|e: (u64, Option<M>)| e.0)
}

/// The death watch of one actor.
pub struct DeathWatch<M> {
    myself: u64,
    watching: Vec<(WatchedActor, Option<M>)>,
    watched_by: Vec<WatchedActor>,
    terminated_queue: Vec<(u64, Option<M>)>,
}

impl<M> DeathWatch<M> {
    /// The actor's own id.
    pub closed spec fn owner(&self) -> u64 {
        self.myself
    }

    /// The watched actors with their custom messages.
    pub closed spec fn watching(&self) -> Seq<(WatchedActor, Option<M>)> {
        self.watching@
    }

    /// The actors that watch this one.
    pub closed spec fn watched_by(&self) -> Seq<WatchedActor> {
        self.watched_by@
    }

    /// The terminations queued, with their custom messages.
    pub closed spec fn queue(&self) -> Seq<(u64, Option<M>)> {
        self.terminated_queue@
    }

    /// No actor occurs twice in any of the three.
    pub closed spec fn wf(&self) -> bool {
        &&& watch_ids(self.watching@).no_duplicates()
        &&& actor_ids(self.watched_by@).no_duplicates()
        &&& queue_ids(self.terminated_queue@).no_duplicates()
    }

    /// The death watch of the actor `myself`, watching nothing.
    pub fn new(myself: u64) -> (r: Self)
        ensures
            r.wf(),
            r.owner() == myself,
            r.watching().len() == 0,
            r.watched_by().len() == 0,
            r.queue().len() == 0,
    {
        let r = DeathWatch { myself, watching: Vec::new(), watched_by: Vec::new(), terminated_queue: Vec::new() };
        assert(watch_ids(r.watching@) =~= Seq::<u64>::empty());
        assert(actor_ids(r.watched_by@) =~= Seq::<u64>::empty());
        assert(queue_ids(r.terminated_queue@) =~= Seq::<u64>::empty());
        r
    }

    fn has_non_local_exec(&self) -> (r: bool)
        ensures
            r == has_non_local(self.watching@, self.watched_by@),
    {
        let mut i: usize = 0;
        while i < self.watching.len()
            invariant
                0 <= i <= self.watching.len(),
                forall|j: int| 0 <= j < i ==> (#[trigger] self.watching@[j]).0.local,
            decreases self.watching.len() - i,
        {
            if !self.watching[i].0.local {
                return true;
            }
            i = i + 1;
        }
        let mut k: usize = 0;
        while k < self.watched_by.len()
            invariant
                0 <= k <= self.watched_by.len(),
                forall|j: int| 0 <= j < k ==> (#[trigger] self.watched_by@[j]).local,
            decreases self.watched_by.len() - k,
        {
            if !self.watched_by[k].local {
                return true;
            }
            k = k + 1;
        }
        false
    }

    fn position(&self, id: u64) -> (r: Option<usize>)
        ensures
            r is None <==> !watch_ids(self.watching@).contains(id),
            r matches Some(i) ==> i < self.watching.len() && self.watching@[i as int].0.id == id,
    {
        let mut i: usize = 0;
        while i < self.watching.len()
            invariant
                0 <= i <= self.watching.len(),
                forall|j: int| 0 <= j < i ==> (#[trigger] self.watching@[j]).0.id != id,
            decreases self.watching.len() - i,
        {
            if self.watching[i].0.id == id {
                assert(watch_ids(self.watching@)[i as int] == id);
                return Some(i);
            }
            i = i + 1;
        }
        proof {
            let w = watch_ids(self.watching@);
            if w.contains(id) {
                let j = choose|j: int| 0 <= j < w.len() && w[j] == id;
                assert(self.watching@[j].0.id == id);
            }
        }
        None
    }

    /// Whether the actor watches `id`.
    pub fn is_watching(&self, id: u64) -> (r: bool)
        ensures
            r == watch_ids(self.watching()).contains(id),
    {
        self.position(id).is_some()
    }

    /// Starts watching `subject`, with an optional custom message for its
    /// termination; the runtime then sends it a Watch and applies the
    /// subscription change.  An actor cannot watch itself, nor an actor it
    /// watches already.
    pub fn watch(&mut self, subject: WatchedActor, message: Option<M>) -> (r: Result<SubscriptionChange, WatchError>)
        requires
            old(self).wf(),
        ensures
            final(self).wf(),
            final(self).owner() == old(self).owner(),
            final(self).watched_by() == old(self).watched_by(),
            final(self).queue() == old(self).queue(),
            subject.id == old(self).owner() ==> r == Err::<SubscriptionChange, WatchError>(WatchError::CannotWatchSelf)
                && final(self).watching() == old(self).watching(),
            subject.id != old(self).owner() && watch_ids(old(self).watching()).contains(subject.id) ==> r == Err::<
                SubscriptionChange,
                WatchError,
            >(WatchError::Duplicate) && final(self).watching() == old(self).watching(),
            subject.id != old(self).owner() && !watch_ids(old(self).watching()).contains(subject.id) ==> final(self).watching() == old(self).watching().push((subject, message)) && r == Ok::<SubscriptionChange, WatchError>(
                subscription_after(
                    Some(subject),
                    has_non_local(old(self).watching(), old(self).watched_by()),
                    has_non_local(final(self).watching(), final(self).watched_by()),
                ),
            ),
    {
        if subject.id == self.myself {
            return Err(WatchError::CannotWatchSelf);
        }
        if self.position(subject.id).is_some() {
            return Err(WatchError::Duplicate);
        }
        let had_before = self.has_non_local_exec();
        let ghost before = self.watching@;
        self.watching.push((subject, message));
        proof {
            assert(watch_ids(self.watching@) =~= watch_ids(before).push(subject.id));
            let w = watch_ids(self.watching@);
            assert forall|a: int, b: int| 0 <= a < b < w.len() implies w[a] != w[b] by {
                if b == before.len() {
                    assert(watch_ids(before)[a] == w[a]);
                }
            }
        }
        let has_now = self.has_non_local_exec();
        Ok(change_of(Some(subject), had_before, has_now))
    }

    /// Stops watching `subject`, dropping any queued termination of it;
    /// `None` where it was not watched (or is the actor itself), else the
    /// subscription change (the runtime sends it an Unwatch).
    pub fn unwatch(&mut self, subject: WatchedActor) -> (r: Option<SubscriptionChange>)
        requires
            old(self).wf(),
        ensures
            final(self).wf(),
            final(self).owner() == old(self).owner(),
            final(self).watched_by() == old(self).watched_by(),
            (subject.id == old(self).owner() || !watch_ids(old(self).watching()).contains(subject.id)) ==> r is None
                && final(self).watching() == old(self).watching() && final(self).queue() == old(self).queue(),
            subject.id != old(self).owner() && watch_ids(old(self).watching()).contains(subject.id) ==> {
                &&& !watch_ids(final(self).watching()).contains(subject.id)
                &&& (forall|x: u64| x != subject.id ==> (#[trigger] watch_ids(final(self).watching()).contains(x) == watch_ids(old(self).watching()).contains(x)))
                &&& !queue_ids(final(self).queue()).contains(subject.id)
                &&& (forall|x: u64| x != subject.id ==> (#[trigger] queue_ids(final(self).queue()).contains(x) == queue_ids(old(self).queue()).contains(x)))
                &&& r == Some(subscription_after(
                    Some(subject),
                    has_non_local(old(self).watching(), old(self).watched_by()),
                    has_non_local(final(self).watching(), final(self).watched_by()),
                ))
            },
    {
        if subject.id == self.myself {
            return None;
        }
        match self.position(subject.id) {
            None => None,
            Some(i) => {
                let had_before = self.has_non_local_exec();
                let ghost before = self.watching@;
                self.watching.remove(i);
                proof {
                    let wb = watch_ids(before);
                    let wa = watch_ids(self.watching@);
                    assert(wa =~= wb.remove(i as int));
                    assert(wa.no_duplicates()) by {
                        assert forall|a: int, b: int| 0 <= a < b < wa.len() implies wa[a] != wa[b] by {
                            let a2 = if a < i { a } else { a + 1 };
                            let b2 = if b < i { b } else { b + 1 };
                            assert(wa[a] == wb[a2] && wa[b] == wb[b2]);
                        }
                    }
                    assert forall|x: u64| x != subject.id implies (#[trigger] wa.contains(x) == wb.contains(x)) by {
                        if wa.contains(x) {
                            let k = choose|k: int| 0 <= k < wa.len() && wa[k] == x;
                            if k < i {
                                assert(wb[k] == x);
                            } else {
                                assert(wb[k + 1] == x);
                            }
                        }
                        if wb.contains(x) {
                            let k = choose|k: int| 0 <= k < wb.len() && wb[k] == x;
                            if k < i {
                                assert(wa[k] == x);
                            } else if k > i {
                                assert(wa[k - 1] == x);
                            }
                        }
                    }
                    assert(!wa.contains(subject.id)) by {
                        if wa.contains(subject.id) {
                            let k = choose|k: int| 0 <= k < wa.len() && wa[k] == subject.id;
                            if k < i {
                                assert(wb[k] == wb[i as int]);
                            } else {
                                assert(wb[k + 1] == wb[i as int]);
                            }
                        }
                    }
                }
                let has_now = self.has_non_local_exec();
                self.drop_queued(subject.id);
                Some(change_of(Some(subject), had_before, has_now))
            },
        }
    }

    /// Queues the termination of `id` with its custom message, unless one
    /// is queued for it already.
    pub fn terminated_queued_for(&mut self, id: u64, message: Option<M>)
        requires
            old(self).wf(),
        ensures
            final(self).wf(),
            final(self).owner() == old(self).owner(),
            final(self).watching() == old(self).watching(),
            final(self).watched_by() == old(self).watched_by(),
            queue_ids(old(self).queue()).contains(id) ==> final(self).queue() == old(self).queue(),
            !queue_ids(old(self).queue()).contains(id) ==> final(self).queue() == old(self).queue().push((id, message)),
    {
        let mut i: usize = 0;
        while i < self.terminated_queue.len()
            invariant
                0 <= i <= self.terminated_queue.len(),
                *self == *old(self),
                self.wf(),
                forall|j: int| 0 <= j < i ==> (#[trigger] self.terminated_queue@[j]).0 != id,
            decreases self.terminated_queue.len() - i,
        {
            if self.terminated_queue[i].0 == id {
                assert(queue_ids(self.terminated_queue@)[i as int] == id);
                return;
            }
            i = i + 1;
        }
        let ghost before = queue_ids(self.terminated_queue@);
        proof {
            if before.contains(id) {
                let k = choose|k: int| 0 <= k < before.len() && before[k] == id;
                assert(self.terminated_queue@[k].0 == id);
            }
        }
        self.terminated_queue.push((id, message));
        proof {
            let qa = queue_ids(self.terminated_queue@);
            assert(qa =~= before.push(id));
            assert forall|a: int, b: int| 0 <= a < b < qa.len() implies qa[a] != qa[b] by {
                if b == before.len() {
                    assert(qa[a] == before[a]);
                }
            }
        }
    }

    /// Takes the watched `actor`'s termination in: where it was watched, it
    /// is watched no more, and unless the actor is itself terminating its
    /// termination is queued (with the custom message of the watch) and
    /// the runtime tells the actor.  The result says whether it was
    /// watched, the subscription change, and whether to tell the actor.
    pub fn watched_actor_terminated(&mut self, actor: WatchedActor, terminating: bool) -> (r: (bool, Option<SubscriptionChange>, bool))
        requires
            old(self).wf(),
        ensures
            final(self).wf(),
            final(self).owner() == old(self).owner(),
            final(self).watched_by() == old(self).watched_by(),
            r.0 == watch_ids(old(self).watching()).contains(actor.id),
            !r.0 ==> r.1 is None && !r.2 && final(self).watching() == old(self).watching() && final(self).queue() == old(self).queue(),
            r.0 ==> {
                &&& !watch_ids(final(self).watching()).contains(actor.id)
                &&& (forall|x: u64| x != actor.id ==> (#[trigger] watch_ids(final(self).watching()).contains(x) == watch_ids(old(self).watching()).contains(x)))
                &&& r.1 == Some(subscription_after(
                    Some(actor),
                    has_non_local(old(self).watching(), old(self).watched_by()),
                    has_non_local(final(self).watching(), final(self).watched_by()),
                ))
                &&& r.2 == !terminating
                &&& terminating ==> final(self).queue() == old(self).queue()
                &&& !terminating ==> queue_ids(final(self).queue()).contains(actor.id)
                &&& !terminating ==> (forall|x: u64| x != actor.id ==> (#[trigger] queue_ids(final(self).queue()).contains(x) == queue_ids(old(self).queue()).contains(x)))
            },
    {
        match self.position(actor.id) {
            None => (false, None, false),
            Some(i) => {
                let had_before = self.has_non_local_exec();
                let ghost before = self.watching@;
                let (_, message) = self.watching.remove(i);
                proof {
                    let wb = watch_ids(before);
                    let wa = watch_ids(self.watching@);
                    assert(wa =~= wb.remove(i as int));
                    assert(wa.no_duplicates()) by {
                        assert forall|a: int, b: int| 0 <= a < b < wa.len() implies wa[a] != wa[b] by {
                            let a2 = if a < i { a } else { a + 1 };
                            let b2 = if b < i { b } else { b + 1 };
                            assert(wa[a] == wb[a2] && wa[b] == wb[b2]);
                        }
                    }
                    assert forall|x: u64| x != actor.id implies (#[trigger] wa.contains(x) == wb.contains(x)) by {
                        if wa.contains(x) {
                            let k = choose|k: int| 0 <= k < wa.len() && wa[k] == x;
                            if k < i {
                                assert(wb[k] == x);
                            } else {
                                assert(wb[k + 1] == x);
                            }
                        }
                        if wb.contains(x) {
                            let k = choose|k: int| 0 <= k < wb.len() && wb[k] == x;
                            if k < i {
                                assert(wa[k] == x);
                            } else if k > i {
                                assert(wa[k - 1] == x);
                            }
                        }
                    }
                    assert(!wa.contains(actor.id)) by {
                        if wa.contains(actor.id) {
                            let k = choose|k: int| 0 <= k < wa.len() && wa[k] == actor.id;
                            if k < i {
                                assert(wb[k] == wb[i as int]);
                            } else {
                                assert(wb[k + 1] == wb[i as int]);
                            }
                        }
                    }
                }
                let has_now = self.has_non_local_exec();
                let change = change_of(Some(actor), had_before, has_now);
                if !terminating {
                    let ghost q0 = queue_ids(self.terminated_queue@);
                    self.terminated_queued_for(actor.id, message);
                    proof {
                        let q1 = queue_ids(self.terminated_queue@);
                        if !q0.contains(actor.id) {
                            assert(q1 =~= q0.push(actor.id));
                            assert(q1[q0.len() as int] == actor.id);
                            assert forall|x: u64| x != actor.id implies (#[trigger] q1.contains(x) == q0.contains(x)) by {
                                if q1.contains(x) {
                                    let k = choose|k: int| 0 <= k < q1.len() && q1[k] == x;
                                    if k < q0.len() {
                                        assert(q0[k] == x);
                                    }
                                }
                                if q0.contains(x) {
                                    let k = choose|k: int| 0 <= k < q0.len() && q0[k] == x;
                                    assert(q1[k] == x);
                                }
                            }
                        }
                    }
                }
                (true, Some(change), !terminating)
            },
        }
    }

    /// Adds an actor that watches this one (as a Watch message asks).
    pub fn add_watcher(&mut self, watcher: WatchedActor) -> (r: Option<SubscriptionChange>)
        requires
            old(self).wf(),
        ensures
            final(self).wf(),
            final(self).owner() == old(self).owner(),
            final(self).watching() == old(self).watching(),
            final(self).queue() == old(self).queue(),
            actor_ids(old(self).watched_by()).contains(watcher.id) ==> r is None && final(self).watched_by() == old(self).watched_by(),
            !actor_ids(old(self).watched_by()).contains(watcher.id) ==> final(self).watched_by() == old(self).watched_by().push(watcher)
                && r == Some(subscription_after(
                    Some(watcher),
                    has_non_local(old(self).watching(), old(self).watched_by()),
                    has_non_local(final(self).watching(), final(self).watched_by()),
                )),
    {
        let mut i: usize = 0;
        while i < self.watched_by.len()
            invariant
                0 <= i <= self.watched_by.len(),
                *self == *old(self),
                self.wf(),
                forall|j: int| 0 <= j < i ==> (#[trigger] self.watched_by@[j]).id != watcher.id,
            decreases self.watched_by.len() - i,
        {
            if self.watched_by[i].id == watcher.id {
                assert(actor_ids(self.watched_by@)[i as int] == watcher.id);
                return None;
            }
            i = i + 1;
        }
        let ghost before = actor_ids(self.watched_by@);
        proof {
            if before.contains(watcher.id) {
                let k = choose|k: int| 0 <= k < before.len() && before[k] == watcher.id;
                assert(self.watched_by@[k].id == watcher.id);
            }
        }
        let had_before = self.has_non_local_exec();
        self.watched_by.push(watcher);
        proof {
            let a = actor_ids(self.watched_by@);
            assert(a =~= before.push(watcher.id));
            assert forall|x: int, y: int| 0 <= x < y < a.len() implies a[x] != a[y] by {
                if y == before.len() {
                    assert(a[x] == before[x]);
                }
            }
        }
        let has_now = self.has_non_local_exec();
        Some(change_of(Some(watcher), had_before, has_now))
    }

    /// The actor has died: the ids of its watchers to tell, the non-local
    /// ones first, each group in order, leaving out its parent; no watcher
    /// is kept, and the subscription change is that of a change concerning
    /// all actors.
    pub fn tell_watchers_we_died(&mut self, parent: Option<u64>) -> (r: (Vec<u64>, SubscriptionChange))
        requires
            old(self).wf(),
        ensures
            final(self).wf(),
            final(self).owner() == old(self).owner(),
            final(self).watching() == old(self).watching(),
            final(self).queue() == old(self).queue(),
            final(self).watched_by().len() == 0,
            r.0@ == notified(old(self).watched_by(), parent, false) + notified(old(self).watched_by(), parent, true),
            forall|i: int| 0 <= i < old(self).watched_by().len() && parent != Some(old(self).watched_by()[i].id)
                ==> #[trigger] r.0@.contains(old(self).watched_by()[i].id),
            forall|x: u64| #[trigger] r.0@.contains(x) ==> parent != Some(x)
                && exists|i: int| 0 <= i < old(self).watched_by().len() && old(self).watched_by()[i].id == x,
            r.1 == subscription_after(
                None,
                has_non_local(old(self).watching(), old(self).watched_by()),
                has_non_local(final(self).watching(), final(self).watched_by()),
            ),
    {
        let ghost w = self.watched_by@;
        let mut out: Vec<u64> = Vec::new();
        let mut pass: usize = 0;
        while pass < 2
            invariant
                0 <= pass <= 2,
                self.watched_by@ == w,
                pass == 0 ==> out@ == Seq::<u64>::empty(),
                pass == 1 ==> out@ == notified(w, parent, false),
                pass == 2 ==> out@ == notified(w, parent, false) + notified(w, parent, true),
            decreases 2 - pass,
        {
            let want_local = pass == 1;
            let ghost start = out@;
            let mut i: usize = 0;
            while i < self.watched_by.len()
                invariant
                    0 <= i <= self.watched_by.len(),
                    self.watched_by@ == w,
                    out@ == start + notified(w.take(i as int), parent, want_local),
                decreases self.watched_by.len() - i,
            {
                let a = self.watched_by[i];
                let skip = match parent {
                    Some(p) => p == a.id,
                    None => false,
                };
                if a.local == want_local && !skip {
                    out.push(a.id);
                }
                proof {
                    assert(w.take(i + 1).drop_last() =~= w.take(i as int));
                    assert(w.take(i + 1).last() == a);
                    assert(out@ =~= start + notified(w.take(i + 1), parent, want_local));
                }
                i = i + 1;
            }
            assert(w.take(i as int) =~= w);
            pass = pass + 1;
        }
        proof {
            law_tell_watchers(w, parent);
        }
        let had_before = self.has_non_local_exec();
        self.watched_by = Vec::new();
        proof {
            assert(actor_ids(self.watched_by@) =~= Seq::<u64>::empty());
        }
        let has_now = self.has_non_local_exec();
        (out, change_of(None, had_before, has_now))
    }

    /// Stops watching all actors: `None` where none is watched; otherwise
    /// the ids to send Unwatch to, in order, and the subscription change of
    /// a change concerning all actors; the termination queue is cleared.
    pub fn unwatch_watched_actors(&mut self) -> (r: Option<(Vec<u64>, SubscriptionChange)>)
        requires
            old(self).wf(),
        ensures
            final(self).wf(),
            final(self).owner() == old(self).owner(),
            final(self).watched_by() == old(self).watched_by(),
            old(self).watching().len() == 0 ==> r is None && final(self).watching() == old(self).watching() && final(self).queue() == old(self).queue(),
            old(self).watching().len() > 0 ==> {
                &&& final(self).watching().len() == 0
                &&& final(self).queue().len() == 0
                &&& r matches Some(x) && x.0@ == watch_ids(old(self).watching()) && x.1 == subscription_after(
                    None,
                    has_non_local(old(self).watching(), old(self).watched_by()),
                    has_non_local(final(self).watching(), final(self).watched_by()),
                )
            },
    {
        if self.watching.len() == 0 {
            return None;
        }
        let had_before = self.has_non_local_exec();
        let mut ids: Vec<u64> = Vec::new();
        let mut i: usize = 0;
        while i < self.watching.len()
            invariant
                0 <= i <= self.watching.len(),
                ids@ == watch_ids(self.watching@).take(i as int),
            decreases self.watching.len() - i,
        {
            ids.push(self.watching[i].0.id);
            assert(watch_ids(self.watching@).take(i + 1) =~= watch_ids(self.watching@).take(i as int).push(self.watching@[i as int].0.id));
            i = i + 1;
        }
        assert(watch_ids(self.watching@).take(i as int) =~= watch_ids(self.watching@));
        self.watching = Vec::new();
        self.terminated_queue = Vec::new();
        proof {
            assert(watch_ids(self.watching@) =~= Seq::<u64>::empty());
            assert(queue_ids(self.terminated_queue@) =~= Seq::<u64>::empty());
        }
        let has_now = self.has_non_local_exec();
        Some((ids, change_of(None, had_before, has_now)))
    }

    /// Removes any queued termination of `id`.
    fn drop_queued(&mut self, id: u64)
        requires
            queue_ids(old(self).terminated_queue@).no_duplicates(),
        ensures
            final(self).myself == old(self).myself,
            final(self).watching@ == old(self).watching@,
            final(self).watched_by@ == old(self).watched_by@,
            queue_ids(final(self).terminated_queue@).no_duplicates(),
            !queue_ids(final(self).terminated_queue@).contains(id),
            forall|x: u64| x != id ==> (#[trigger] queue_ids(final(self).terminated_queue@).contains(x) == queue_ids(old(self).terminated_queue@).contains(x)),
    {
        let mut i: usize = 0;
        while i < self.terminated_queue.len()
            invariant
                0 <= i <= self.terminated_queue.len(),
                self.terminated_queue@ == old(self).terminated_queue@,
                forall|j: int| 0 <= j < i ==> (#[trigger] self.terminated_queue@[j]).0 != id,
            ensures
                0 <= i <= self.terminated_queue.len(),
                self.terminated_queue@ == old(self).terminated_queue@,
                forall|j: int| 0 <= j < i ==> (#[trigger] self.terminated_queue@[j]).0 != id,
                i < self.terminated_queue.len() ==> self.terminated_queue@[i as int].0 == id,
            decreases self.terminated_queue.len() - i,
        {
            if self.terminated_queue[i].0 == id {
                break;
            }
            i = i + 1;
        }
        let ghost before = queue_ids(self.terminated_queue@);
        if i < self.terminated_queue.len() {
            assert(before[i as int] == id);
            self.terminated_queue.remove(i);
            proof {
                let qa = queue_ids(self.terminated_queue@);
                assert(qa =~= before.remove(i as int));
                assert(qa.no_duplicates()) by {
                    assert forall|a: int, b: int| 0 <= a < b < qa.len() implies qa[a] != qa[b] by {
                        let a2 = if a < i { a } else { a + 1 };
                        let b2 = if b < i { b } else { b + 1 };
                        assert(qa[a] == before[a2] && qa[b] == before[b2]);
                    }
                }
                assert forall|x: u64| x != id implies (#[trigger] qa.contains(x) == before.contains(x)) by {
                    if qa.contains(x) {
                        let k = choose|k: int| 0 <= k < qa.len() && qa[k] == x;
                        if k < i {
                            assert(before[k] == x);
                        } else {
                            assert(before[k + 1] == x);
                        }
                    }
                    if before.contains(x) {
                        let k = choose|k: int| 0 <= k < before.len() && before[k] == x;
                        if k < i {
                            assert(qa[k] == x);
                        } else if k > i {
                            assert(qa[k - 1] == x);
                        }
                    }
                }
                assert(!qa.contains(id)) by {
                    if qa.contains(id) {
                        let k = choose|k: int| 0 <= k < qa.len() && qa[k] == id;
                        if k < i {
                            assert(before[k] == before[i as int]);
                        } else {
                            assert(before[k + 1] == before[i as int]);
                        }
                    }
                }
            }
        } else {
            proof {
                if before.contains(id) {
                    let k = choose|k: int| 0 <= k < before.len() && before[k] == id;
                    assert(self.terminated_queue@[k].0 == id);
                }
            }
        }
    }
}

/// The ids of the watchers, in order, that are local (or not, as
/// `local` says), leaving out the parent.
pub open spec fn notified(w: Seq<WatchedActor>, parent: Option<u64>, local: bool) -> Seq<u64>
    decreases w.len(),
{
    if w.len() == 0 {
        Seq::empty()
    } else {
        let rest = notified(w.drop_last(), parent, local);
        let a = w.last();
        if a.local == local && parent != Some(a.id) {
            rest.push(a.id)
        } else {
            rest
        }
    }
}

proof fn lemma_notified_members(w: Seq<WatchedActor>, parent: Option<u64>, local: bool)
    ensures
        forall|x: u64| #[trigger] notified(w, parent, local).contains(x) <==> (parent != Some(x)
            && exists|i: int| 0 <= i < w.len() && w[i].id == x && w[i].local == local),
    decreases w.len(),
{
    if w.len() > 0 {
        let t = w.drop_last();
        lemma_notified_members(t, parent, local);
        let a = w.last();
        let rest = notified(t, parent, local);
        assert forall|x: u64| #[trigger] notified(w, parent, local).contains(x) <==> (parent != Some(x)
            && exists|i: int| 0 <= i < w.len() && w[i].id == x && w[i].local == local) by {
            if a.local == local && parent != Some(a.id) {
                assert(notified(w, parent, local) == rest.push(a.id));
                if rest.push(a.id).contains(x) {
                    let k = choose|k: int| 0 <= k < rest.push(a.id).len() && rest.push(a.id)[k] == x;
                    if k < rest.len() {
                        assert(rest.contains(x));
                        let i = choose|i: int| 0 <= i < t.len() && t[i].id == x && t[i].local == local;
                        assert(w[i] == t[i]);
                    } else {
                        assert(w[w.len() - 1] == a);
                    }
                }
            }
            if parent != Some(x) && exists|i: int| 0 <= i < w.len() && w[i].id == x && w[i].local == local {
                let i = choose|i: int| 0 <= i < w.len() && w[i].id == x && w[i].local == local;
                if i < t.len() {
                    assert(t[i] == w[i]);
                    assert(rest.contains(x));
                    if a.local == local && parent != Some(a.id) {
                        let k = choose|k: int| 0 <= k < rest.len() && rest[k] == x;
                        assert(rest.push(a.id)[k] == x);
                    }
                } else {
                    assert(w[i] == a);
                    assert(rest.push(a.id)[rest.len() as int] == x);
                }
            }
            if !(a.local == local && parent != Some(a.id)) && rest.contains(x) {
                let i = choose|i: int| 0 <= i < t.len() && t[i].id == x && t[i].local == local;
                assert(w[i] == t[i]);
            }
        }
    }
}

/// The watchers told of an actor's death are exactly those that are not its
/// parent: remote watchers first, then local ones.  Every watcher whose id
/// is not the parent's is told, and only watchers are told, never the
/// parent.
pub proof fn law_tell_watchers(w: Seq<WatchedActor>, parent: Option<u64>)
    ensures
        forall|i: int| 0 <= i < w.len() && parent != Some(w[i].id) ==> #[trigger] (notified(w, parent, false)
            + notified(w, parent, true)).contains(w[i].id),
        forall|x: u64| #[trigger] (notified(w, parent, false) + notified(w, parent, true)).contains(x) ==> parent != Some(x)
            && exists|i: int| 0 <= i < w.len() && w[i].id == x,
        forall|x: u64| #[trigger] notified(w, parent, false).contains(x) <==> (parent != Some(x)
            && exists|i: int| 0 <= i < w.len() && w[i].id == x && !w[i].local),
        forall|x: u64| #[trigger] notified(w, parent, true).contains(x) <==> (parent != Some(x)
            && exists|i: int| 0 <= i < w.len() && w[i].id == x && w[i].local),
{
    lemma_notified_members(w, parent, false);
    lemma_notified_members(w, parent, true);
    let a = notified(w, parent, false);
    let b = notified(w, parent, true);
    assert forall|x: u64| #[trigger] (a + b).contains(x) <==> (a.contains(x) || b.contains(x)) by {
        if (a + b).contains(x) {
            let k = choose|k: int| 0 <= k < (a + b).len() && (a + b)[k] == x;
            if k < a.len() {
                assert(a[k] == x);
            } else {
                assert(b[k - a.len()] == x);
            }
        }
        if a.contains(x) {
            let k = choose|k: int| 0 <= k < a.len() && a[k] == x;
            assert((a + b)[k] == x);
        }
        if b.contains(x) {
            let k = choose|k: int| 0 <= k < b.len() && b[k] == x;
            assert((a + b)[k + a.len()] == x);
        }
    }
    assert forall|i: int| 0 <= i < w.len() && parent != Some(w[i].id) implies #[trigger] (a + b).contains(w[i].id) by {
        if w[i].local {
            assert(b.contains(w[i].id));
        } else {
            assert(a.contains(w[i].id));
        }
    }
}

/// The subscription change, as `subscription_after` says.
pub fn change_of(change: Option<WatchedActor>, had_before: bool, has_now: bool) -> (r: SubscriptionChange)
    ensures
        r == subscription_after(change, had_before, has_now),
{
    let non_local = match change {
        None => true,
        Some(a) => !a.local,
    };
    if non_local {
        if had_before && !has_now {
            SubscriptionChange::Unsubscribe
        } else {
            SubscriptionChange::Subscribe
        }
    } else {
        SubscriptionChange::Unchanged
    }
}

} // verus!
