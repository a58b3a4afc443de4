//! Configuration: values that merge with a fallback, and the core
//! configuration of an actor system (its shutdown phases).

use vstd::prelude::*;
use crate::coordinated_shutdown::{Phase, PhaseView, phases_view};
use crate::phase_order::{PhaseGraph, names_distinct};

verus! {

/// A configuration that can be merged with another, whose entries win.
pub trait Config: Sized {
    fn merge(&self, other: Self) -> Self;
}

/// The configuration of an actor.
#[derive(Debug, Clone, Copy)]
pub struct ActorConfig {}

/// The phases of a configuration as a map from name to phase.
pub open spec fn phase_map(g: PhaseGraph) -> Map<Seq<char>, PhaseView> {
    Map::new(
        |k: Seq<char>| exists|i: int| 0 <= i < g.len() && #[trigger] g[i].0 == k,
        |k: Seq<char>| g[choose|i: int| 0 <= i < g.len() && #[trigger] g[i].0 == k].1,
    )
}

proof fn lemma_phase_map_at(g: PhaseGraph, i: int)
    requires
        names_distinct(g),
        0 <= i < g.len(),
    ensures
        phase_map(g).contains_key(g[i].0),
        phase_map(g)[g[i].0] == g[i].1,
{
    assert(phase_map(g).contains_key(g[i].0));
    let c = choose|j: int| 0 <= j < g.len() && #[trigger] g[j].0 == g[i].0;
    if c != i {
        if c < i {
            assert(g[c].0 != g[i].0);
        } else {
            assert(g[i].0 != g[c].0);
        }
    }
}

/// The core configuration of an actor system: its shutdown phases, each
/// name once.
#[derive(Debug)]
pub struct CoreConfig {
    phases: Vec<(String, Phase)>,
}

impl CoreConfig {
    #[verifier::type_invariant]
    closed spec fn wf(self) -> bool {
        names_distinct(phases_view(self.phases@))
    }

    /// The phases by their views.
    pub closed spec fn phase_graph(&self) -> PhaseGraph {
        phases_view(self.phases@)
    }

    /// A configuration of the given phases, each name once (as the keys of
    /// a map).
    pub fn new(phases: Vec<(String, Phase)>) -> (r: CoreConfig)
        requires
            names_distinct(phases_view(phases@)),
        ensures
            r.phase_graph() == phases_view(phases@),
    {
        CoreConfig { phases }
    }

    /// The phases.
    pub fn phases(&self) -> (r: &Vec<(String, Phase)>)
        ensures
            phases_view(r@) == self.phase_graph(),
            names_distinct(phases_view(r@)),
    {
        proof {
            use_type_invariant(self);
        }
        &self.phases
    }

    /// The phases of `self`, with those of `other` added and taking the
    /// place of any of the same name.
    pub fn merge_phases(&self, other: CoreConfig) -> (r: CoreConfig)
        ensures
            phase_map(r.phase_graph()) == phase_map(self.phase_graph()).union_prefer_right(
                phase_map(other.phase_graph()),
            ),
    {
        proof {
            use_type_invariant(self);
            use_type_invariant(&other);
        }
        let ghost a = phases_view(self.phases@);
        let ghost b = phases_view(other.phases@);
        let mut merged: Vec<(String, Phase)> = Vec::new();
        let mut i: usize = 0;
        while i < self.phases.len()
            invariant
                0 <= i <= self.phases.len(),
                a == phases_view(self.phases@),
                merged.len() == i,
                forall|j: int| 0 <= j < i ==> (#[trigger] merged@[j]).0@ == self.phases@[j].0@ && merged@[j].1@ == self.phases@[j].1@,
            decreases self.phases.len() - i,
        {
            let name = self.phases[i].0.clone();
            let phase = self.phases[i].1.clone();
            merged.push((name, phase));
            i = i + 1;
        }
        assert(phases_view(merged@) =~= a);
        let mut rest = other.phases;
        let mut k: usize = 0;
        let ghost bs = phases_view(rest@);
        while k < rest.len()
            invariant
                0 <= k <= rest.len(),
                bs == phases_view(rest@),
                bs == b,
                names_distinct(b),
                names_distinct(phases_view(merged@)),
                phase_map(phases_view(merged@)) == phase_map(a).union_prefer_right(phase_map(b.take(k as int))),
            decreases rest.len() - k,
        {
            let ghost before = phases_view(merged@);
            let name = rest[k].0.clone();
            let phase = rest[k].1.clone();
            assert(b[k as int] == (name@, phase@));
            let mut j: usize = 0;
            while j < merged.len()
                invariant
                    0 <= j <= merged.len(),
                    before == phases_view(merged@),
                    forall|t: int| 0 <= t < j ==> #[trigger] before[t].0 != name@,
                ensures
                    j < merged.len() ==> before[j as int].0 == name@,
                decreases merged.len() - j,
            {
                assert(before[j as int].0 == merged@[j as int].0@);
                if merged[j].0 == name {
                    break;
                }
                j = j + 1;
            }
            let ghost entry = (name@, phase@);
            if j < merged.len() {
                merged.set(j, (name, phase));
                proof {
                    let after = phases_view(merged@);
                    assert(after =~= before.update(j as int, entry));
                    assert(names_distinct(after)) by {
                        assert forall|x: int, y: int| 0 <= x < y < after.len() implies #[trigger] after[x].0 != #[trigger] after[y].0 by {
                            assert(after[x].0 == before[x].0);
                            assert(after[y].0 == before[y].0);
                        }
                    }
                    assert(phase_map(after) =~= phase_map(before).insert(entry.0, entry.1)) by {
                        assert forall|key: Seq<char>| #[trigger] phase_map(after).contains_key(key) <==> phase_map(before).insert(entry.0, entry.1).contains_key(key) by {
                            if phase_map(after).contains_key(key) {
                                let t = choose|t: int| 0 <= t < after.len() && #[trigger] after[t].0 == key;
                                assert(before[t].0 == key);
                            }
                            if phase_map(before).contains_key(key) {
                                let t = choose|t: int| 0 <= t < before.len() && #[trigger] before[t].0 == key;
                                assert(after[t].0 == key);
                            }
                        }
                        assert forall|key: Seq<char>| #[trigger] phase_map(after).contains_key(key) implies phase_map(after)[key] == phase_map(before).insert(entry.0, entry.1)[key] by {
                            let t = choose|t: int| 0 <= t < after.len() && #[trigger] after[t].0 == key;
                            lemma_phase_map_at(after, t);
                            lemma_phase_map_at(before, t);
                        }
                    }
                }
            } else {
                merged.push((name, phase));
                proof {
                    let after = phases_view(merged@);
                    assert(after =~= before.push(entry));
                    assert(names_distinct(after)) by {
                        assert forall|x: int, y: int| 0 <= x < y < after.len() implies #[trigger] after[x].0 != #[trigger] after[y].0 by {
                            if y == before.len() {
                                assert(after[x].0 == before[x].0);
                            }
                        }
                    }
                    assert(phase_map(after) =~= phase_map(before).insert(entry.0, entry.1)) by {
                        assert forall|key: Seq<char>| #[trigger] phase_map(after).contains_key(key) <==> phase_map(before).insert(entry.0, entry.1).contains_key(key) by {
                            if phase_map(after).contains_key(key) {
                                let t = choose|t: int| 0 <= t < after.len() && #[trigger] after[t].0 == key;
                                if t < before.len() {
                                    assert(before[t].0 == key);
                                }
                            }
                            if phase_map(before).contains_key(key) {
                                let t = choose|t: int| 0 <= t < before.len() && #[trigger] before[t].0 == key;
                                assert(after[t].0 == key);
                            }
                            if key == entry.0 {
                                assert(after[before.len() as int].0 == key);
                            }
                        }
                        assert forall|key: Seq<char>| #[trigger] phase_map(after).contains_key(key) implies phase_map(after)[key] == phase_map(before).insert(entry.0, entry.1)[key] by {
                            let t = choose|t: int| 0 <= t < after.len() && #[trigger] after[t].0 == key;
                            lemma_phase_map_at(after, t);
                            if t < before.len() {
                                lemma_phase_map_at(before, t);
                            }
                        }
                    }
                }
            }
            proof {
                let bt = b.take(k + 1);
                assert(bt =~= b.take(k as int).push(entry));
                assert(names_distinct(bt)) by {
                    assert forall|x: int, y: int| 0 <= x < y < bt.len() implies #[trigger] bt[x].0 != #[trigger] bt[y].0 by {
                        assert(bt[x] == b[x] && bt[y] == b[y]);
                    }
                }
                assert(names_distinct(b.take(k as int))) by {
                    let bk = b.take(k as int);
                    assert forall|x: int, y: int| 0 <= x < y < bk.len() implies #[trigger] bk[x].0 != #[trigger] bk[y].0 by {
                        assert(bk[x] == b[x] && bk[y] == b[y]);
                    }
                }
                lemma_phase_map_at(bt, k as int);
                assert(phase_map(bt) =~= phase_map(b.take(k as int)).insert(entry.0, entry.1)) by {
                    let bk = b.take(k as int);
                    assert forall|key: Seq<char>| #[trigger] phase_map(bt).contains_key(key) <==> phase_map(bk).insert(entry.0, entry.1).contains_key(key) by {
                        if phase_map(bt).contains_key(key) {
                            let t = choose|t: int| 0 <= t < bt.len() && #[trigger] bt[t].0 == key;
                            if t < bk.len() {
                                assert(bk[t].0 == key);
                            }
                        }
                        if phase_map(bk).contains_key(key) {
                            let t = choose|t: int| 0 <= t < bk.len() && #[trigger] bk[t].0 == key;
                            assert(bt[t].0 == key);
                        }
                    }
                    assert forall|key: Seq<char>| #[trigger] phase_map(bt).contains_key(key) implies phase_map(bt)[key] == phase_map(bk).insert(entry.0, entry.1)[key] by {
                        let t = choose|t: int| 0 <= t < bt.len() && #[trigger] bt[t].0 == key;
                        lemma_phase_map_at(bt, t);
                        if t < bk.len() {
                            lemma_phase_map_at(bk, t);
                        }
                    }
                }
                assert(phase_map(a).union_prefer_right(phase_map(bt)) =~= phase_map(a).union_prefer_right(phase_map(b.take(k as int))).insert(entry.0, entry.1));
            }
            k = k + 1;
        }
        assert(b.take(k as int) =~= b);
        CoreConfig { phases: merged }
    }
}

impl Config for CoreConfig {
    /// The phases of both, those of `other` winning.
    fn merge(&self, other: Self) -> (r: Self)
        ensures
            phase_map(r.phase_graph()) == phase_map(self.phase_graph()).union_prefer_right(
                phase_map(other.phase_graph()),
            ),
    {
        self.merge_phases(other)
    }
}

} // verus!
