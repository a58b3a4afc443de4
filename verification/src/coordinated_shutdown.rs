//! Coordinated shutdown: phases that depend on one another, the tasks
//! registered in them, and the plan by which a shutdown runs them.
//!
//! Lengths of time are counted in nanoseconds.

use vstd::prelude::*;
use crate::phase_order::{
    PhaseGraph,
    is_phase_name,
    is_configured,
    config_index,
    names_distinct,
    is_phase_order,
    has_dependency_cycle,
    is_dependency_cycle,
    topological_sort,
    find_phase,
};

verus! {

pub const PHASE_BEFORE_SERVICE_UNBIND: &'static str = "before-service-unbind";

pub const PHASE_SERVICE_UNBIND: &'static str = "service-unbind";

pub const PHASE_SERVICE_REQUESTS_DONE: &'static str = "service-requests-done";

pub const PHASE_SERVICE_STOP: &'static str = "service-stop";

pub const PHASE_BEFORE_CLUSTER_SHUTDOWN: &'static str = "before-cluster-shutdown";

pub const PHASE_CLUSTER_SHARDING_SHUTDOWN_REGION: &'static str = "cluster-sharding-shutdown-region";

pub const PHASE_CLUSTER_LEAVE: &'static str = "cluster-leave";

pub const PHASE_CLUSTER_EXITING: &'static str = "cluster-exiting";

pub const PHASE_CLUSTER_EXITING_DONE: &'static str = "cluster-exiting-done";

pub const PHASE_CLUSTER_SHUTDOWN: &'static str = "cluster-shutdown";

pub const PHASE_BEFORE_ACTOR_SYSTEM_TERMINATE: &'static str = "before-actor-system-terminate";

pub const PHASE_ACTOR_SYSTEM_TERMINATE: &'static str = "actor-system-terminate";

/// A phase of the shutdown: the phases that must run before it, how long
/// its tasks may take (nanoseconds), and whether it runs at all.
#[derive(Debug)]
pub struct Phase {
    pub depends_on: Vec<String>,
    pub timeout: u128,
    pub enabled: bool,
}

/// What a phase stands for.
pub struct PhaseView {
    pub depends_on: Seq<Seq<char>>,
    pub timeout: u128,
    pub enabled: bool,
}

/// The character sequences of a sequence of strings.
pub open spec fn text_views(v: Seq<String>) -> Seq<Seq<char>> {
    v.map_values(|s: String| s@)
}

impl View for Phase {
    type V = PhaseView;

    open spec fn view(&self) -> PhaseView {
        PhaseView { depends_on: text_views(self.depends_on@), timeout: self.timeout, enabled: self.enabled }
    }
}

/// A copy of a sequence of strings.
pub fn clone_strings(v: &Vec<String>) -> (r: Vec<String>)
    ensures
        text_views(r@) == text_views(v@),
{
    let mut r: Vec<String> = Vec::new();
    let mut i: usize = 0;
    while i < v.len()
        invariant
            0 <= i <= v.len(),
            r.len() == i,
            forall|j: int| 0 <= j < i ==> #[trigger] r[j]@ == v[j]@,
        decreases v.len() - i,
    {
        r.push(v[i].clone());
        i = i + 1;
    }
    assert(text_views(r@) =~= text_views(v@));
    r
}

impl Clone for Phase {
    fn clone(&self) -> (r: Self)
        ensures
            r@ == self@,
    {
        Phase { depends_on: clone_strings(&self.depends_on), timeout: self.timeout, enabled: self.enabled }
    }
}

impl Default for Phase {
    fn default() -> (p: Self)
        ensures
            p@.depends_on.len() == 0,
            p.timeout == 10_000_000_000,
            p.enabled,
    {
        Phase { depends_on: Vec::new(), timeout: 10_000_000_000, enabled: true }
    }
}

/// The phases of a configuration by their views.
pub open spec fn phases_view(phases: Seq<(String, Phase)>) -> Seq<(Seq<char>, PhaseView)> {
    phases.map_values(|e: (String, Phase)| (e.0@, e.1@))
}

/// Why a shutdown operation was refused.
#[derive(Debug)]
pub enum ShutdownError {
    /// The phases do not form a DAG: `phase` depends transitively on itself.
    Cycle { phase: String },
    /// The phase is not among the configured phases or their dependencies.
    UnknownPhase { phase: String },
    /// A task was added without a name.
    EmptyTaskName,
}

/// Checks a task before it is added: its phase must be a phase name of the
/// configuration, and it must have a name.
pub fn check_task(phases: &Vec<(String, Phase)>, phase: &str, task_name: &str) -> (r: Result<(), ShutdownError>)
    ensures
        r matches Err(ShutdownError::UnknownPhase { .. }) <==> !is_phase_name(phases_view(phases@), phase@),
        r matches Err(ShutdownError::UnknownPhase { phase: p }) ==> p@ == phase@,
        r matches Err(ShutdownError::EmptyTaskName) <==> is_phase_name(phases_view(phases@), phase@) && task_name@.len() == 0,
        r is Ok <==> is_phase_name(phases_view(phases@), phase@) && task_name@.len() > 0,
        !(r matches Err(ShutdownError::Cycle { .. })),
{
    let known = crate::phase_order::known_phases(phases);
    let mut found = false;
    let mut i: usize = 0;
    while i < known.len()
        invariant
            0 <= i <= known.len(),
            found <==> exists|j: int| 0 <= j < i && #[trigger] known@[j]@ == phase@,
        decreases known.len() - i,
    {
        if crate::text::compare_text(known[i].as_str(), phase) == crate::text::Order3::Equal {
            found = true;
        }
        i = i + 1;
    }
    proof {
        let kv = text_views(known@);
        if found {
            let j = choose|j: int| 0 <= j < known.len() && #[trigger] known@[j]@ == phase@;
            assert(kv[j] == phase@);
        }
        if kv.contains(phase@) {
            let j = choose|j: int| 0 <= j < kv.len() && kv[j] == phase@;
            assert(known@[j]@ == phase@);
        }
    }
    if !found {
        return Err(ShutdownError::UnknownPhase { phase: phase.to_owned() });
    }
    if task_name.is_empty() {
        return Err(ShutdownError::EmptyTaskName);
    }
    Ok(())
}

/// The timeout of a configured phase, in nanoseconds.
pub fn timeout(phases: &Vec<(String, Phase)>, phase: &String) -> (r: Option<u128>)
    requires
        names_distinct(phases_view(phases@)),
    ensures
        r is Some <==> is_configured(phases_view(phases@), phase@),
        r matches Some(t) ==> t == phases_view(phases@)[config_index(phases_view(phases@), phase@)].1.timeout,
{
    let ghost g = phases_view(phases@);
    match find_phase(phases, phase) {
        Some(k) => {
            proof {
                assert(g[k as int].0 == phase@);
                let c = config_index(g, phase@);
                if c != k {
                    if c < k {
                        assert(g[c].0 != g[k as int].0);
                    } else {
                        assert(g[k as int].0 != g[c].0);
                    }
                }
            }
            Some(phases[k].1.timeout)
        },
        None => {
            proof {
                if is_configured(g, phase@) {
                    let c = choose|c: int| 0 <= c < g.len() && #[trigger] g[c].0 == phase@;
                    assert(phases@[c].0@ != phase@);
                }
            }
            None
        },
    }
}

/// A task registered in a phase: its name and the work itself.
pub struct TaskDefinition<T> {
    pub name: String,
    pub task: T,
}

/// The tasks of a phase by their views: name and work.
pub open spec fn task_views<T>(ts: Seq<TaskDefinition<T>>) -> Seq<(Seq<char>, T)> {
    ts.map_values(|t: TaskDefinition<T>| (t.name@, t.task))
}

/// The phases that have tasks, with their tasks in the order registered.
pub type Registry<T> = Seq<(Seq<char>, Seq<(Seq<char>, T)>)>;

/// The registry by its views.
pub open spec fn registry_view<T>(r: Seq<(String, Vec<TaskDefinition<T>>)>) -> Registry<T> {
    r.map_values(|e: (String, Vec<TaskDefinition<T>>)| (e.0@, task_views(e.1@)))
}

/// No phase occurs twice in the registry.
pub open spec fn keys_distinct<T>(r: Registry<T>) -> bool {
    forall|i: int, j: int| 0 <= i < j < r.len() ==> #[trigger] r[i].0 != #[trigger] r[j].0
}

/// The phase has tasks in the registry.
pub open spec fn has_key<T>(r: Registry<T>, k: Seq<char>) -> bool {
    exists|i: int| 0 <= i < r.len() && #[trigger] r[i].0 == k
}

/// The position of the phase in the registry.
pub open spec fn key_index<T>(r: Registry<T>, k: Seq<char>) -> int {
    choose|i: int| 0 <= i < r.len() && #[trigger] r[i].0 == k
}

/// The tasks registered in the phase, none where it has none.
pub open spec fn tasks_in<T>(r: Registry<T>, k: Seq<char>) -> Seq<(Seq<char>, T)> {
    if has_key(r, k) {
        r[key_index(r, k)].1
    } else {
        Seq::empty()
    }
}

proof fn lemma_key_at<T>(r: Registry<T>, i: int)
    requires
        keys_distinct(r),
        0 <= i < r.len(),
    ensures
        has_key(r, r[i].0),
        key_index(r, r[i].0) == i,
        tasks_in(r, r[i].0) == r[i].1,
{
    assert(has_key(r, r[i].0));
    let c = key_index(r, r[i].0);
    if c != i {
        if c < i {
            assert(r[c].0 != r[i].0);
        } else {
            assert(r[i].0 != r[c].0);
        }
    }
}

/// The run of one phase: its name, its timeout and its tasks.
pub struct PhaseRun<T> {
    pub phase: String,
    pub timeout: u128,
    pub tasks: Vec<TaskDefinition<T>>,
}

/// A planned run by its views.
pub open spec fn run_views<T>(runs: Seq<PhaseRun<T>>) -> Seq<(Seq<char>, u128, Seq<(Seq<char>, T)>)> {
    runs.map_values(|r: PhaseRun<T>| (r.phase@, r.timeout, task_views(r.tasks@)))
}

/// The runs of a shutdown: the phases taken in `ordered`, those that are
/// configured, enabled and have tasks, each with its timeout and tasks.
pub open spec fn plan_of<T>(ordered: Seq<Seq<char>>, g: PhaseGraph, reg: Registry<T>) -> Seq<
    (Seq<char>, u128, Seq<(Seq<char>, T)>),
>
    decreases ordered.len(),
{
    if ordered.len() == 0 {
        Seq::empty()
    } else {
        let p = ordered[ordered.len() - 1];
        let rest = plan_of(ordered.drop_last(), g, reg);
        if is_configured(g, p) && g[config_index(g, p)].1.enabled && has_key(reg, p) {
            rest.push((p, g[config_index(g, p)].1.timeout, tasks_in(reg, p)))
        } else {
            rest
        }
    }
}

/// The position of `key` in the registry.
fn find_key<T>(reg: &Vec<(String, Vec<TaskDefinition<T>>)>, key: &String) -> (r: Option<usize>)
    ensures
        r matches Some(j) ==> j < reg.len() && reg@[j as int].0@ == key@,
        r is None ==> forall|j: int| 0 <= j < reg.len() ==> #[trigger] reg@[j].0@ != key@,
{
    let mut j: usize = 0;
    while j < reg.len()
        invariant
            0 <= j <= reg.len(),
            forall|t: int| 0 <= t < j ==> #[trigger] reg@[t].0@ != key@,
        decreases reg.len() - j,
    {
        if reg[j].0 == *key {
            return Some(j);
        }
        j = j + 1;
    }
    None
}

/// The shutdown of an actor system: the configured phases, the order in
/// which they run, the tasks registered in them, and whether the shutdown
/// has begun.
pub struct CoordinatedShutdown<T> {
    phases: Vec<(String, Phase)>,
    ordered_phases: Vec<String>,
    registered: Vec<(String, Vec<TaskDefinition<T>>)>,
    run_started: bool,
}

impl<T> CoordinatedShutdown<T> {
    /// The configured phases.
    pub closed spec fn phase_graph(&self) -> PhaseGraph {
        phases_view(self.phases@)
    }

    /// The order in which the phases run.
    pub closed spec fn order(&self) -> Seq<Seq<char>> {
        text_views(self.ordered_phases@)
    }

    /// The registered tasks.
    pub closed spec fn registry(&self) -> Registry<T> {
        registry_view(self.registered@)
    }

    /// Whether the shutdown has begun.
    pub closed spec fn started(&self) -> bool {
        self.run_started
    }

    /// The phases have distinct names and a valid order, and every phase
    /// with tasks occurs once in the registry and is a phase name.
    pub closed spec fn wf(&self) -> bool {
        &&& names_distinct(self.phase_graph())
        &&& is_phase_order(self.phase_graph(), self.order())
        &&& keys_distinct(self.registry())
        &&& forall|i: int| 0 <= i < self.registry().len() ==> is_phase_name(self.phase_graph(), #[trigger] self.registry()[i].0)
    }

    /// A shutdown over the configured phases, with no tasks and not begun;
    /// refused where the phases have a dependency cycle.  The configuration
    /// holds each phase name once, as the keys of a map do.
    pub fn new(phases: Vec<(String, Phase)>) -> (r: Result<Self, ShutdownError>)
        requires
            names_distinct(phases_view(phases@)),
        ensures
            r is Ok <==> !has_dependency_cycle(phases_view(phases@)),
            r matches Ok(s) ==> {
                &&& s.wf()
                &&& s.phase_graph() == phases_view(phases@)
                &&& s.registry().len() == 0
                &&& !s.started()
            },
            r matches Err(e) ==> e matches ShutdownError::Cycle { phase } && exists|path: Seq<Seq<char>>|
                is_dependency_cycle(phases_view(phases@), path) && path[0] == phase@,
    {
        match topological_sort(&phases) {
            Ok(ordered_phases) => {
                let s = CoordinatedShutdown { phases, ordered_phases, registered: Vec::new(), run_started: false };
                assert(s.registry() =~= Seq::empty());
                Ok(s)
            },
            Err(e) => Err(e),
        }
    }

    /// Adds a task to a phase, after the checks of `check_task`.
    pub fn add_task(&mut self, phase: &str, task_name: String, task: T) -> (r: Result<(), ShutdownError>)
        requires
            old(self).wf(),
        ensures
            final(self).wf(),
            final(self).phase_graph() == old(self).phase_graph(),
            final(self).order() == old(self).order(),
            final(self).started() == old(self).started(),
            r matches Err(ShutdownError::UnknownPhase { .. }) <==> !is_phase_name(old(self).phase_graph(), phase@),
            r matches Err(ShutdownError::EmptyTaskName) <==> is_phase_name(old(self).phase_graph(), phase@) && task_name@.len() == 0,
            r matches Err(ShutdownError::UnknownPhase { phase: p }) ==> p@ == phase@,
            r is Ok <==> is_phase_name(old(self).phase_graph(), phase@) && task_name@.len() > 0,
            r is Err ==> final(self).registry() == old(self).registry(),
            r is Ok ==> {
                &&& is_phase_name(old(self).phase_graph(), phase@)
                &&& task_name@.len() > 0
                &&& forall|k: Seq<char>| #[trigger] has_key(final(self).registry(), k) <==> (has_key(old(self).registry(), k) || k == phase@)
                &&& forall|k: Seq<char>| #[trigger] tasks_in(final(self).registry(), k) == if k == phase@ {
                    tasks_in(old(self).registry(), k).push((task_name@, task))
                } else {
                    tasks_in(old(self).registry(), k)
                }
            },
    {
        match check_task(&self.phases, phase, task_name.as_str()) {
            Err(e) => {
                return Err(e);
            },
            Ok(()) => {},
        }
        let phase_name = phase.to_owned();
        let ghost task_name_view = task_name@;
        let def = TaskDefinition { name: task_name, task };
        let ghost old_reg = self.registry();
        let ghost entry = (task_name_view, task);
        let mut reg: Vec<(String, Vec<TaskDefinition<T>>)> = Vec::new();
        std::mem::swap(&mut reg, &mut self.registered);
        assert(registry_view(reg@) == old_reg);
        match find_key(&reg, &phase_name) {
            Some(j) => {
                let (key, mut tasks) = reg.remove(j);
                let ghost old_tasks = task_views(tasks@);
                tasks.push(def);
                assert(task_views(tasks@) =~= old_tasks.push(entry));
                reg.insert(j, (key, tasks));
                proof {
                    let nr = registry_view(reg@);
                    assert(nr.len() == old_reg.len());
                    assert forall|i: int| 0 <= i < nr.len() implies #[trigger] nr[i].0 == old_reg[i].0 && (i != j ==> nr[i].1 == old_reg[i].1) by {
                        if i < j {
                            assert(nr[i] == old_reg[i]);
                        } else if i > j {
                            assert(nr[i] == old_reg[i]);
                        }
                    }
                    assert(nr[j as int].1 == old_reg[j as int].1.push(entry));
                    assert(keys_distinct(nr));
                    lemma_key_at(old_reg, j as int);
                    lemma_key_at(nr, j as int);
                    assert forall|k: Seq<char>| #[trigger] has_key(nr, k) <==> (has_key(old_reg, k) || k == phase@) by {
                        if has_key(nr, k) {
                            let i = choose|i: int| 0 <= i < nr.len() && #[trigger] nr[i].0 == k;
                            assert(old_reg[i].0 == k);
                        }
                        if has_key(old_reg, k) {
                            let i = choose|i: int| 0 <= i < old_reg.len() && #[trigger] old_reg[i].0 == k;
                            assert(nr[i].0 == k);
                        }
                    }
                    assert forall|k: Seq<char>| #[trigger] tasks_in(nr, k) == if k == phase@ {
                        tasks_in(old_reg, k).push(entry)
                    } else {
                        tasks_in(old_reg, k)
                    } by {
                        if has_key(old_reg, k) && k != phase@ {
                            let i = choose|i: int| 0 <= i < old_reg.len() && #[trigger] old_reg[i].0 == k;
                            lemma_key_at(old_reg, i);
                            lemma_key_at(nr, i);
                        }
                    }
                }
            },
            None => {
                let mut tasks: Vec<TaskDefinition<T>> = Vec::new();
                tasks.push(def);
                reg.push((phase_name, tasks));
                proof {
                    let nr = registry_view(reg@);
                    let n = old_reg.len();
                    assert(nr.len() == n + 1);
                    assert forall|i: int| 0 <= i < n implies #[trigger] nr[i] == old_reg[i] by {}
                    assert(nr[n as int].0 == phase@);
                    assert(!has_key(old_reg, phase@)) by {
                        if has_key(old_reg, phase@) {
                            let i = choose|i: int| 0 <= i < old_reg.len() && #[trigger] old_reg[i].0 == phase@;
                            assert(reg@[i].0@ == old_reg[i].0);
                        }
                    }
                    assert(task_views(reg@[n as int].1@) =~= seq![entry]);
                    assert(keys_distinct(nr));
                    lemma_key_at(nr, n as int);
                    assert forall|k: Seq<char>| #[trigger] has_key(nr, k) <==> (has_key(old_reg, k) || k == phase@) by {
                        if has_key(nr, k) {
                            let i = choose|i: int| 0 <= i < nr.len() && #[trigger] nr[i].0 == k;
                            if i < n {
                                assert(old_reg[i].0 == k);
                            }
                        }
                        if has_key(old_reg, k) {
                            let i = choose|i: int| 0 <= i < old_reg.len() && #[trigger] old_reg[i].0 == k;
                            assert(nr[i].0 == k);
                        }
                    }
                    assert forall|k: Seq<char>| #[trigger] tasks_in(nr, k) == if k == phase@ {
                        tasks_in(old_reg, k).push(entry)
                    } else {
                        tasks_in(old_reg, k)
                    } by {
                        if k == phase@ {
                            assert(tasks_in(old_reg, k) == Seq::<(Seq<char>, T)>::empty());
                            assert(Seq::<(Seq<char>, T)>::empty().push(entry) =~= seq![entry]);
                        } else if has_key(old_reg, k) {
                            let i = choose|i: int| 0 <= i < old_reg.len() && #[trigger] old_reg[i].0 == k;
                            lemma_key_at(old_reg, i);
                            lemma_key_at(nr, i);
                        } else {
                            assert(!has_key(nr, k));
                        }
                    }
                }
            },
        }
        self.registered = reg;
        Ok(())
    }

    /// Begins the shutdown for `reason`: the first call marks it begun and
    /// gives the plan of `plan_of`, with the error the reason ends the
    /// system with (what `into_error` gives), leaving no task registered;
    /// any later call gets nothing.
    pub fn run<R: Reason>(&mut self, reason: &R) -> (r: Option<(Vec<PhaseRun<T>>, Option<String>)>)
        requires
            old(self).wf(),
        ensures
            final(self).wf(),
            final(self).started(),
            final(self).phase_graph() == old(self).phase_graph(),
            final(self).order() == old(self).order(),
            old(self).started() ==> r is None && final(self).registry() == old(self).registry(),
            !old(self).started() ==> final(self).registry().len() == 0 && r is Some,
            r matches Some(x) ==> run_views(x.0@) == plan_of(old(self).order(), old(self).phase_graph(), old(self).registry())
                && call_ensures(R::into_error, (reason,), x.1),
    {
        if self.run_started {
            return None;
        }
        let error = reason.into_error();
        self.run_with_error(error)
    }

    /// Begins the shutdown, ending the system with `error`: the first call
    /// marks it begun and gives the plan of `plan_of` with `error`, leaving
    /// no task registered; any later call gets nothing.
    pub fn run_with_error(&mut self, error: Option<String>) -> (r: Option<(Vec<PhaseRun<T>>, Option<String>)>)
        requires
            old(self).wf(),
        ensures
            final(self).wf(),
            final(self).started(),
            final(self).phase_graph() == old(self).phase_graph(),
            final(self).order() == old(self).order(),
            old(self).started() ==> r is None && final(self).registry() == old(self).registry(),
            !old(self).started() ==> final(self).registry().len() == 0 && r is Some,
            r matches Some(x) ==> run_views(x.0@) == plan_of(old(self).order(), old(self).phase_graph(), old(self).registry())
                && x.1 == error,
    {
        match self.take_plan() {
            Some(runs) => Some((runs, error)),
            None => None,
        }
    }

    /// Marks the shutdown begun and hands out the registered tasks as the
    /// plan of `plan_of`, leaving none registered; nothing where it had begun.
    fn take_plan(&mut self) -> (r: Option<Vec<PhaseRun<T>>>)
        requires
            old(self).wf(),
        ensures
            final(self).wf(),
            final(self).started(),
            final(self).phase_graph() == old(self).phase_graph(),
            final(self).order() == old(self).order(),
            old(self).started() ==> r is None && final(self).registry() == old(self).registry(),
            !old(self).started() ==> final(self).registry().len() == 0 && r is Some,
            r matches Some(runs) ==> run_views(runs@) == plan_of(old(self).order(), old(self).phase_graph(), old(self).registry()),
    {
        if self.run_started {
            return None;
        }
        self.run_started = true;
        let ghost g = self.phase_graph();
        let ghost ordered = self.order();
        let ghost reg0 = self.registry();
        let mut reg: Vec<(String, Vec<TaskDefinition<T>>)> = Vec::new();
        std::mem::swap(&mut reg, &mut self.registered);
        assert(self.registry() =~= Seq::<(Seq<char>, Seq<(Seq<char>, T)>)>::empty());
        let mut runs: Vec<PhaseRun<T>> = Vec::new();
        let mut k: usize = 0;
        while k < self.ordered_phases.len()
            invariant
                0 <= k <= self.ordered_phases.len(),
                g == phases_view(self.phases@),
                ordered == text_views(self.ordered_phases@),
                names_distinct(g),
                ordered.no_duplicates(),
                keys_distinct(reg0),
                registry_view(reg@).len() == reg0.len(),
                forall|i: int| 0 <= i < reg0.len() ==> #[trigger] registry_view(reg@)[i].0 == reg0[i].0,
                forall|i: int| 0 <= i < reg0.len() && !ordered.take(k as int).contains(reg0[i].0) ==> #[trigger] registry_view(reg@)[i].1 == reg0[i].1,
                run_views(runs@) == plan_of(ordered.take(k as int), g, reg0),
            decreases self.ordered_phases.len() - k,
        {
            let ghost rv = registry_view(reg@);
            let ghost p = ordered[k as int];
            assert(ordered.take(k + 1).drop_last() =~= ordered.take(k as int));
            assert(ordered.take(k + 1)[k as int] == p);
            let name = &self.ordered_phases[k];
            assert(name@ == p);
            match find_phase(&self.phases, name) {
                Some(c) => {
                    proof {
                        assert(g[c as int].0 == p);
                        assert(is_configured(g, p));
                        let ci = config_index(g, p);
                        if ci != c {
                            if ci < c {
                                assert(g[ci].0 != g[c as int].0);
                            } else {
                                assert(g[c as int].0 != g[ci].0);
                            }
                        }
                    }
                    if self.phases[c].1.enabled {
                        match find_key(&reg, name) {
                            Some(j) => {
                                proof {
                                    assert(rv[j as int].0 == p);
                                    assert(reg0[j as int].0 == p);
                                    lemma_key_at(reg0, j as int);
                                    assert(!ordered.take(k as int).contains(p)) by {
                                        if ordered.take(k as int).contains(p) {
                                            let q = choose|q: int| 0 <= q < k && ordered.take(k as int)[q] == p;
                                            assert(ordered[q] == ordered[k as int]);
                                        }
                                    }
                                    assert(rv[j as int].1 == reg0[j as int].1);
                                }
                                let (key, tasks) = reg.remove(j);
                                reg.insert(j, (key, Vec::new()));
                                let ghost tv = task_views(tasks@);
                                runs.push(PhaseRun { phase: name.clone(), timeout: self.phases[c].1.timeout, tasks });
                                proof {
                                    let nr = registry_view(reg@);
                                    assert forall|i: int| 0 <= i < reg0.len() implies #[trigger] nr[i].0 == reg0[i].0 && (i != j ==> nr[i].1 == rv[i].1) by {
                                        if i != j {
                                            assert(nr[i] == rv[i]);
                                        }
                                    }
                                    assert forall|i: int| 0 <= i < reg0.len() && !ordered.take(k + 1).contains(reg0[i].0) implies #[trigger] nr[i].1 == reg0[i].1 by {
                                        if i == j {
                                            assert(ordered.take(k + 1)[k as int] == reg0[i].0);
                                        } else {
                                            if ordered.take(k as int).contains(reg0[i].0) {
                                                let q = choose|q: int| 0 <= q < k && ordered.take(k as int)[q] == reg0[i].0;
                                                assert(ordered.take(k + 1)[q] == reg0[i].0);
                                            }
                                            assert(nr[i] == rv[i]);
                                            assert(rv[i].1 == reg0[i].1);
                                        }
                                    }
                                    assert(run_views(runs@) =~= plan_of(ordered.take(k as int), g, reg0).push((p, g[c as int].1.timeout, tv)));
                                }
                            },
                            None => {
                                proof {
                                    assert(!has_key(reg0, p)) by {
                                        if has_key(reg0, p) {
                                            let i = choose|i: int| 0 <= i < reg0.len() && #[trigger] reg0[i].0 == p;
                                            assert(rv[i].0 == p);
                                            assert(reg@[i].0@ == rv[i].0);
                                        }
                                    }
                                    assert forall|i: int| 0 <= i < reg0.len() && !ordered.take(k + 1).contains(reg0[i].0) implies #[trigger] registry_view(reg@)[i].1 == reg0[i].1 by {
                                        if ordered.take(k as int).contains(reg0[i].0) {
                                            let q = choose|q: int| 0 <= q < k && ordered.take(k as int)[q] == reg0[i].0;
                                            assert(ordered.take(k + 1)[q] == reg0[i].0);
                                        }
                                    }
                                }
                            },
                        }
                    } else {
                        proof {
                            assert forall|i: int| 0 <= i < reg0.len() && !ordered.take(k + 1).contains(reg0[i].0) implies #[trigger] registry_view(reg@)[i].1 == reg0[i].1 by {
                                if ordered.take(k as int).contains(reg0[i].0) {
                                    let q = choose|q: int| 0 <= q < k && ordered.take(k as int)[q] == reg0[i].0;
                                    assert(ordered.take(k + 1)[q] == reg0[i].0);
                                }
                            }
                        }
                    }
                },
                None => {
                    proof {
                        assert(!is_configured(g, p)) by {
                            if is_configured(g, p) {
                                let c = choose|c: int| 0 <= c < g.len() && #[trigger] g[c].0 == p;
                                assert(self.phases@[c].0@ != name@);
                            }
                        }
                        assert forall|i: int| 0 <= i < reg0.len() && !ordered.take(k + 1).contains(reg0[i].0) implies #[trigger] registry_view(reg@)[i].1 == reg0[i].1 by {
                            if ordered.take(k as int).contains(reg0[i].0) {
                                let q = choose|q: int| 0 <= q < k && ordered.take(k as int)[q] == reg0[i].0;
                                assert(ordered.take(k + 1)[q] == reg0[i].0);
                            }
                        }
                    }
                },
            }
            k = k + 1;
        }
        assert(ordered.take(k as int) =~= ordered);
        Some(runs)
    }

    /// Whether the shutdown has begun.
    pub fn run_started(&self) -> (r: bool)
        ensures
            r == self.started(),
    {
        self.run_started
    }

    /// Whether the system is shutting down.
    pub fn is_terminating(&self) -> (r: bool)
        ensures
            r == self.started(),
    {
        self.run_started
    }

    /// The order in which the phases run.
    pub fn ordered_phases(&self) -> (r: &Vec<String>)
        ensures
            text_views(r@) == self.order(),
    {
        &self.ordered_phases
    }

    /// The timeout of a configured phase, in nanoseconds.
    pub fn timeout(&self, phase: &String) -> (r: Option<u128>)
        requires
            self.wf(),
        ensures
            r is Some <==> is_configured(self.phase_graph(), phase@),
            r matches Some(t) ==> t == self.phase_graph()[config_index(self.phase_graph(), phase@)].1.timeout,
    {
        timeout(&self.phases, phase)
    }
}

/// Why a coordinated shutdown runs.
pub trait Reason {
    /// The text the reason is shown by.
    fn describe(&self) -> String;

    /// The error the shutdown ends the system with, if any.
    fn into_error(&self) -> (r: Option<String>)
        default_ensures
            r is None,
    {
        None
    }
}

/// The actor system was asked to terminate.
#[derive(Debug)]
pub struct ActorSystemTerminateReason;

/// The process received Ctrl-C.
#[derive(Debug)]
pub struct CtrlCExitReason;

/// The actor system failed to start; the message says why.
#[derive(Debug)]
pub struct ActorSystemStartFailedReason(pub String);

/// The cluster downed this member.
#[derive(Debug)]
pub struct ClusterDowningReason;

/// This member left the cluster.
#[derive(Debug)]
pub struct ClusterLeavingReason;

impl Reason for ActorSystemTerminateReason {
    /// The full path of the type.
    fn describe(&self) -> (r: String)
        ensures
            r@ == "actor_rs::coordinated_shutdown::ActorSystemTerminateReason"@,
    {
        "actor_rs::coordinated_shutdown::ActorSystemTerminateReason".to_owned()
    }
}

impl Reason for CtrlCExitReason {
    /// The full path of the type.
    fn describe(&self) -> (r: String)
        ensures
            r@ == "actor_rs::coordinated_shutdown::CtrlCExitReason"@,
    {
        "actor_rs::coordinated_shutdown::CtrlCExitReason".to_owned()
    }
}

impl Reason for ActorSystemStartFailedReason {
    /// The full path of the type.
    fn describe(&self) -> (r: String)
        ensures
            r@ == "actor_rs::coordinated_shutdown::ActorSystemStartFailedReason"@,
    {
        "actor_rs::coordinated_shutdown::ActorSystemStartFailedReason".to_owned()
    }
}

impl Reason for ClusterDowningReason {
    /// The full path of the type.
    fn describe(&self) -> (r: String)
        ensures
            r@ == "actor_rs::coordinated_shutdown::ClusterDowningReason"@,
    {
        "actor_rs::coordinated_shutdown::ClusterDowningReason".to_owned()
    }
}

impl Reason for ClusterLeavingReason {
    /// The full path of the type.
    fn describe(&self) -> (r: String)
        ensures
            r@ == "actor_rs::coordinated_shutdown::ClusterLeavingReason"@,
    {
        "actor_rs::coordinated_shutdown::ClusterLeavingReason".to_owned()
    }
}

} // verus!
