//! The order in which shutdown phases run: a depth-first topological sort
//! of the dependency graph, which refuses a graph with a cycle.

use vstd::prelude::*;
use crate::text::{text_lt, compare_text, Order3, lemma_text_lt_transitive, lemma_text_lt_irreflexive};
use crate::coordinated_shutdown::{Phase, PhaseView, ShutdownError, phases_view, text_views};

verus! {

/// A configuration of phases: a name and a phase each.
pub type PhaseGraph = Seq<(Seq<char>, PhaseView)>;

/// No two phases of the configuration have the same name.
pub open spec fn names_distinct(g: PhaseGraph) -> bool {
    forall|i: int, j: int| 0 <= i < j < g.len() ==> #[trigger] g[i].0 != #[trigger] g[j].0
}

/// The entry names `x` as its phase or as one of its dependencies.
pub open spec fn mentions(e: (Seq<char>, PhaseView), x: Seq<char>) -> bool {
    e.0 == x || e.1.depends_on.contains(x)
}

/// `x` names a phase or a dependency of one.
pub open spec fn is_phase_name(g: PhaseGraph, x: Seq<char>) -> bool {
    exists|i: int| 0 <= i < g.len() && #[trigger] mentions(g[i], x)
}

/// `x` is configured as a phase.
pub open spec fn is_configured(g: PhaseGraph, x: Seq<char>) -> bool {
    exists|i: int| 0 <= i < g.len() && #[trigger] g[i].0 == x
}

/// The position of a phase configured under the name `x`.
pub open spec fn config_index(g: PhaseGraph, x: Seq<char>) -> int {
    choose|i: int| 0 <= i < g.len() && #[trigger] g[i].0 == x
}

/// The dependencies of `x`: those of the phase configured under that name,
/// none where there is no such phase.
pub open spec fn deps_of(g: PhaseGraph, x: Seq<char>) -> Seq<Seq<char>> {
    if is_configured(g, x) {
        g[config_index(g, x)].1.depends_on
    } else {
        Seq::empty()
    }
}

/// `a` depends on `b`.
pub open spec fn depends(g: PhaseGraph, a: Seq<char>, b: Seq<char>) -> bool {
    deps_of(g, a).contains(b)
}

/// `order` holds every phase name once, each after all its dependencies.
pub open spec fn is_phase_order(g: PhaseGraph, order: Seq<Seq<char>>) -> bool {
    &&& order.no_duplicates()
    &&& forall|x: Seq<char>| #[trigger] order.contains(x) <==> is_phase_name(g, x)
    &&& forall|i: int, j: int|
        0 <= i < order.len() && 0 <= j < order.len() && depends(g, #[trigger] order[i], #[trigger] order[j]) ==> j < i
}

/// `path` leads along dependencies from its first phase back to it.
pub open spec fn is_dependency_cycle(g: PhaseGraph, path: Seq<Seq<char>>) -> bool {
    &&& path.len() >= 2
    &&& path[0] == path[path.len() - 1]
    &&& forall|i: int| 0 <= i < path.len() - 1 ==> depends(g, #[trigger] path[i], path[i + 1])
}

/// Some phase depends transitively on itself.
pub open spec fn has_dependency_cycle(g: PhaseGraph) -> bool {
    exists|path: Seq<Seq<char>>| is_dependency_cycle(g, path)
}

/// The strings are in strictly ascending lexicographic order.
pub open spec fn strictly_sorted(s: Seq<Seq<char>>) -> bool {
    forall|i: int, j: int| 0 <= i < j < s.len() ==> text_lt(#[trigger] s[i], #[trigger] s[j])
}

proof fn lemma_sorted_distinct(s: Seq<Seq<char>>)
    requires
        strictly_sorted(s),
    ensures
        s.no_duplicates(),
{
    assert forall|i: int, j: int| 0 <= i < s.len() && 0 <= j < s.len() && i != j implies s[i] != s[j] by {
        if i < j {
            lemma_text_lt_irreflexive(s[i]);
        } else {
            lemma_text_lt_irreflexive(s[j]);
        }
    }
}

/// Adds `s` to the strictly sorted `names` unless it is there already.
fn insert_sorted(names: &mut Vec<String>, s: &String)
    requires
        strictly_sorted(text_views(old(names)@)),
    ensures
        strictly_sorted(text_views(final(names)@)),
        forall|x: Seq<char>|
            #[trigger] text_views(final(names)@).contains(x) <==> (text_views(old(names)@).contains(x)
                || x == s@),
{
    let ghost before = text_views(names@);
    let mut p: usize = 0;
    while p < names.len() && compare_text(names[p].as_str(), s.as_str()) == Order3::Less
        invariant
            0 <= p <= names.len(),
            text_views(names@) == before,
            strictly_sorted(before),
            forall|j: int| 0 <= j < p ==> text_lt(#[trigger] before[j], s@),
        decreases names.len() - p,
    {
        p = p + 1;
    }
    if p < names.len() && compare_text(names[p].as_str(), s.as_str()) == Order3::Equal {
        assert(before[p as int] == s@);
        return;
    }
    if p < names.len() {
        assert(text_lt(s@, before[p as int]));
    }
    names.insert(p, s.clone());
    let ghost after = text_views(names@);
    assert(after =~= before.insert(p as int, s@));
    assert forall|i: int, j: int| 0 <= i < j < after.len() implies text_lt(#[trigger] after[i], #[trigger] after[j]) by {
        if j == p {
        } else if i == p {
            if j > p + 1 {
                lemma_text_lt_transitive(s@, before[p as int], before[j - 1]);
            }
        } else if i < p && j > p {
            if j - 1 > p {
                lemma_text_lt_transitive(s@, before[p as int], before[j - 1]);
            }
            lemma_text_lt_transitive(before[i], s@, before[j - 1]);
        }
    }
    assert forall|x: Seq<char>| #[trigger] after.contains(x) <==> (before.contains(x) || x == s@) by {
        if after.contains(x) {
            let k = choose|k: int| 0 <= k < after.len() && after[k] == x;
            if k < p {
                assert(before[k] == x);
            } else if k > p {
                assert(before[k - 1] == x);
            }
        }
        if before.contains(x) {
            let k = choose|k: int| 0 <= k < before.len() && before[k] == x;
            if k < p {
                assert(after[k] == x);
            } else {
                assert(after[k + 1] == x);
            }
        }
        if x == s@ {
            assert(after[p as int] == x);
        }
    }
}

/// `x` is a phase or a dependency of one among the first `i` entries.
pub open spec fn mentioned_before(g: PhaseGraph, i: int, x: Seq<char>) -> bool {
    exists|k: int| 0 <= k < i && #[trigger] mentions(g[k], x)
}

/// All phase names of the configuration, each once, in ascending order.
pub fn known_phases(phases: &Vec<(String, Phase)>) -> (names: Vec<String>)
    ensures
        strictly_sorted(text_views(names@)),
        forall|x: Seq<char>|
            #[trigger] text_views(names@).contains(x) <==> is_phase_name(phases_view(phases@), x),
{
    let ghost g = phases_view(phases@);
    let mut names: Vec<String> = Vec::new();
    let mut i: usize = 0;
    while i < phases.len()
        invariant
            0 <= i <= phases.len(),
            g == phases_view(phases@),
            strictly_sorted(text_views(names@)),
            forall|x: Seq<char>|
                #[trigger] text_views(names@).contains(x) <==> mentioned_before(g, i as int, x),
        decreases phases.len() - i,
    {
        insert_sorted(&mut names, &phases[i].0);
        let deps = &phases[i].1.depends_on;
        assert(g[i as int].1.depends_on == text_views(deps@));
        let mut d: usize = 0;
        while d < deps.len()
            invariant
                0 <= i < phases.len(),
                0 <= d <= deps.len(),
                g == phases_view(phases@),
                deps == &phases[i as int].1.depends_on,
                g[i as int].1.depends_on == text_views(deps@),
                strictly_sorted(text_views(names@)),
                forall|x: Seq<char>|
                    #[trigger] text_views(names@).contains(x) <==> (mentioned_before(g, i as int, x)
                        || x == g[i as int].0 || text_views(deps@).take(d as int).contains(x)),
            decreases deps.len() - d,
        {
            let ghost prev = text_views(names@);
            insert_sorted(&mut names, &deps[d]);
            proof {
                let dv = text_views(deps@);
                assert(dv[d as int] == deps@[d as int]@);
                assert(dv.take(d + 1) =~= dv.take(d as int).push(dv[d as int]));
                assert forall|x: Seq<char>| #[trigger] text_views(names@).contains(x) <==> (mentioned_before(g, i as int, x)
                        || x == g[i as int].0 || dv.take(d + 1).contains(x)) by {
                    let t = dv.take(d as int);
                    let t1 = dv.take(d + 1);
                    if t1.contains(x) {
                        let k = choose|k: int| 0 <= k < t1.len() && t1[k] == x;
                        if k < d {
                            assert(t[k] == x);
                        }
                    }
                    if t.contains(x) {
                        let k = choose|k: int| 0 <= k < t.len() && t[k] == x;
                        assert(t1[k] == x);
                    }
                    if x == dv[d as int] {
                        assert(t1[d as int] == x);
                    }
                }
            }
            d = d + 1;
        }
        proof {
            let dv = text_views(deps@);
            assert(dv.take(d as int) =~= dv);
            assert forall|x: Seq<char>| #[trigger] text_views(names@).contains(x) <==> mentioned_before(g, i + 1, x) by {
                if mentioned_before(g, i + 1, x) {
                    let k = choose|k: int| 0 <= k < i + 1 && #[trigger] mentions(g[k], x);
                    if k < i {
                        assert(mentioned_before(g, i as int, x));
                    }
                }
                if mentioned_before(g, i as int, x) {
                    let k = choose|k: int| 0 <= k < i && #[trigger] mentions(g[k], x);
                    assert(0 <= k < i + 1 && mentions(g[k], x));
                }
                if x == g[i as int].0 || dv.contains(x) {
                    assert(mentions(g[i as int], x));
                }
            }
        }
        i = i + 1;
    }
    proof {
        assert forall|x: Seq<char>| mentioned_before(g, phases.len() as int, x) <==> is_phase_name(g, x) by {
            assert(g.len() == phases.len());
        }
    }
    names
}

/// Entry `i` of `adj` lists, by position in `nv`, the dependencies of the
/// phase named `nv[i]`, in their order.
pub open spec fn adjacency_of(g: PhaseGraph, nv: Seq<Seq<char>>, adj: Seq<Seq<usize>>) -> bool {
    &&& adj.len() == nv.len()
    &&& forall|i: int| 0 <= i < adj.len() ==> #[trigger] adj[i].len() == deps_of(g, nv[i]).len()
    &&& forall|i: int, e: int|
        0 <= i < adj.len() && 0 <= e < adj[i].len() ==> (#[trigger] adj[i][e]) < nv.len() && nv[adj[i][e] as int]
            == deps_of(g, nv[i])[e]
}

/// The adjacency lists by their views.
pub open spec fn adj_view(adj: Seq<Vec<usize>>) -> Seq<Seq<usize>> {
    adj.map_values(|v: Vec<usize>| v@)
}

proof fn lemma_deps_of_at(g: PhaseGraph, k: int)
    requires
        names_distinct(g),
        0 <= k < g.len(),
    ensures
        deps_of(g, g[k].0) == g[k].1.depends_on,
{
    assert(is_configured(g, g[k].0));
    let c = config_index(g, g[k].0);
    if c != k {
        if c < k {
            assert(g[c].0 != g[k].0);
        } else {
            assert(g[k].0 != g[c].0);
        }
    }
}

/// The position of the phase configured under `name`.
pub(crate) fn find_phase(phases: &Vec<(String, Phase)>, name: &String) -> (r: Option<usize>)
    ensures
        r matches Some(k) ==> k < phases.len() && phases@[k as int].0@ == name@,
        r is None ==> forall|k: int| 0 <= k < phases.len() ==> #[trigger] phases@[k].0@ != name@,
{
    let mut k: usize = 0;
    while k < phases.len()
        invariant
            0 <= k <= phases.len(),
            forall|j: int| 0 <= j < k ==> #[trigger] phases@[j].0@ != name@,
        decreases phases.len() - k,
    {
        if phases[k].0 == *name {
            return Some(k);
        }
        k = k + 1;
    }
    None
}

/// The position of `s` among `names`.
fn index_of_name(names: &Vec<String>, s: &String) -> (r: Option<usize>)
    ensures
        r matches Some(j) ==> j < names.len() && names@[j as int]@ == s@,
        r is None ==> !text_views(names@).contains(s@),
{
    let mut j: usize = 0;
    while j < names.len()
        invariant
            0 <= j <= names.len(),
            forall|t: int| 0 <= t < j ==> #[trigger] names@[t]@ != s@,
        decreases names.len() - j,
    {
        if names[j] == *s {
            return Some(j);
        }
        j = j + 1;
    }
    proof {
        let nv = text_views(names@);
        if nv.contains(s@) {
            let t = choose|t: int| 0 <= t < nv.len() && nv[t] == s@;
            assert(names@[t]@ == s@);
        }
    }
    None
}

/// The dependency graph over the positions of `names`.
fn build_adjacency(phases: &Vec<(String, Phase)>, names: &Vec<String>) -> (adj: Vec<Vec<usize>>)
    requires
        names_distinct(phases_view(phases@)),
        forall|x: Seq<char>|
            #[trigger] text_views(names@).contains(x) <==> is_phase_name(phases_view(phases@), x),
    ensures
        adjacency_of(phases_view(phases@), text_views(names@), adj_view(adj@)),
{
    let ghost g = phases_view(phases@);
    let ghost nv = text_views(names@);
    let mut adj: Vec<Vec<usize>> = Vec::new();
    let mut i: usize = 0;
    while i < names.len()
        invariant
            0 <= i <= names.len(),
            g == phases_view(phases@),
            nv == text_views(names@),
            names_distinct(g),
            forall|x: Seq<char>| #[trigger] nv.contains(x) <==> is_phase_name(g, x),
            adj.len() == i,
            forall|t: int| 0 <= t < i ==> #[trigger] adj@[t]@.len() == deps_of(g, nv[t]).len(),
            forall|t: int, e: int|
                0 <= t < i && 0 <= e < adj@[t]@.len() ==> (#[trigger] adj@[t]@[e]) < nv.len() && nv[adj@[t]@[e] as int]
                    == deps_of(g, nv[t])[e],
        decreases names.len() - i,
    {
        let mut row: Vec<usize> = Vec::new();
        match find_phase(phases, &names[i]) {
            None => {
                assert(!is_configured(g, nv[i as int])) by {
                    if is_configured(g, nv[i as int]) {
                        let c = choose|c: int| 0 <= c < g.len() && #[trigger] g[c].0 == nv[i as int];
                        assert(phases@[c].0@ != names@[i as int]@);
                    }
                }
            },
            Some(k) => {
                let deps = &phases[k].1.depends_on;
                proof {
                    lemma_deps_of_at(g, k as int);
                    assert(g[k as int].0 == nv[i as int]);
                    assert(deps_of(g, nv[i as int]) == text_views(deps@));
                }
                let mut e: usize = 0;
                while e < deps.len()
                    invariant
                        0 <= e <= deps.len(),
                        0 <= k < phases.len(),
                        i < names.len(),
                        g == phases_view(phases@),
                        nv == text_views(names@),
                        deps == &phases[k as int].1.depends_on,
                        deps_of(g, nv[i as int]) == text_views(deps@),
                        g[k as int].1.depends_on == text_views(deps@),
                        forall|x: Seq<char>| #[trigger] nv.contains(x) <==> is_phase_name(g, x),
                        row.len() == e,
                        forall|f: int| 0 <= f < e ==> (#[trigger] row@[f]) < nv.len() && nv[row@[f] as int]
                            == deps_of(g, nv[i as int])[f],
                    decreases deps.len() - e,
                {
                    proof {
                        let x = deps@[e as int]@;
                        assert(text_views(deps@)[e as int] == x);
                        assert(g[k as int].1.depends_on.contains(x));
                        assert(mentions(g[k as int], x));
                        assert(is_phase_name(g, x));
                    }
                    let j = index_of_name(names, &deps[e]).unwrap();
                    row.push(j);
                    e = e + 1;
                }
            },
        }
        adj.push(row);
        i = i + 1;
    }
    proof {
        let a = adj_view(adj@);
        assert forall|t: int| 0 <= t < a.len() implies #[trigger] a[t].len() == deps_of(g, nv[t]).len() by {
            assert(a[t] == adj@[t]@);
        }
        assert forall|t: int, e: int| 0 <= t < a.len() && 0 <= e < a[t].len() implies (#[trigger] a[t][e]) < nv.len()
            && nv[a[t][e] as int] == deps_of(g, nv[t])[e] by {
            assert(a[t] == adj@[t]@);
        }
    }
    adj
}

/// Every listed neighbour is a node of the graph.
pub open spec fn adj_well_formed(a: Seq<Seq<usize>>) -> bool {
    forall|i: int, e: int| 0 <= i < a.len() && 0 <= e < a[i].len() ==> (#[trigger] a[i][e]) < a.len()
}

/// Node `i` lists node `j` among its dependencies.
pub open spec fn iedge(a: Seq<Seq<usize>>, i: int, j: int) -> bool {
    a[i].contains(j as usize)
}

/// `path` leads along dependencies from its first node back to it.
pub open spec fn is_index_cycle(a: Seq<Seq<usize>>, path: Seq<int>) -> bool {
    &&& path.len() >= 2
    &&& path[0] == path[path.len() - 1]
    &&& forall|i: int| 0 <= i < path.len() ==> 0 <= #[trigger] path[i] < a.len()
    &&& forall|i: int| 0 <= i < path.len() - 1 ==> #[trigger] iedge(a, path[i], path[i + 1])
}

/// The state of the search: nodes not yet finished are unmarked, those
/// on the current path are also temporarily marked, and the finished
/// nodes stand in `result`, each after all its dependencies.
pub open spec fn search_state(a: Seq<Seq<usize>>, unmarked: Seq<bool>, temp: Seq<bool>, result: Seq<usize>) -> bool {
    &&& unmarked.len() == a.len()
    &&& temp.len() == a.len()
    &&& forall|k: int| 0 <= k < a.len() && #[trigger] temp[k] ==> unmarked[k]
    &&& forall|k: int| 0 <= k < a.len() ==> (!#[trigger] unmarked[k] <==> result.contains(k as usize))
    &&& result.no_duplicates()
    &&& forall|p: int| 0 <= p < result.len() ==> (#[trigger] result[p]) < a.len()
    &&& forall|p: int, e: int|
        0 <= p < result.len() && 0 <= e < a[result[p] as int].len() ==> result.take(p).contains(
            #[trigger] a[result[p] as int][e],
        )
}

/// The temporarily marked nodes form `stack`, a path along dependencies.
pub open spec fn stack_state(a: Seq<Seq<usize>>, temp: Seq<bool>, stack: Seq<int>) -> bool {
    &&& stack.no_duplicates()
    &&& forall|i: int| 0 <= i < stack.len() ==> 0 <= #[trigger] stack[i] < a.len()
    &&& forall|k: int| 0 <= k < a.len() ==> (#[trigger] temp[k] <==> stack.contains(k))
    &&& forall|i: int| 0 <= i < stack.len() - 1 ==> #[trigger] iedge(a, stack[i], stack[i + 1])
}

/// The nodes that are neither finished nor on the current path.
pub open spec fn open_nodes(unmarked: Seq<bool>, temp: Seq<bool>) -> Seq<bool> {
    Seq::new(unmarked.len(), |k: int| unmarked[k] && !temp[k])
}

/// Depth-first search from `u` over the open nodes: `u` is closed, its
/// dependencies are searched in their order, and `u` is finished after
/// them; a node that is not open is passed over.  `fuel` bounds the depth.
pub open spec fn dfs(a: Seq<Seq<usize>>, u: int, open: Seq<bool>, res: Seq<usize>, fuel: nat) -> (Seq<bool>, Seq<usize>)
    decreases fuel, 0int,
{
    if fuel == 0 || !(0 <= u < open.len()) || !open[u] {
        (open, res)
    } else {
        let st = dfs_deps(a, u, 0, open.update(u, false), res, (fuel - 1) as nat);
        (st.0, st.1.push(u as usize))
    }
}

/// The search through the dependencies of `u` from the `t`-th on.
pub open spec fn dfs_deps(a: Seq<Seq<usize>>, u: int, t: int, open: Seq<bool>, res: Seq<usize>, fuel: nat) -> (Seq<bool>, Seq<usize>)
    decreases fuel, a[u].len() - t + 1,
{
    if !(0 <= u < a.len()) || t < 0 || t >= a[u].len() {
        (open, res)
    } else {
        let st = dfs(a, a[u][t] as int, open, res, fuel);
        dfs_deps(a, u, t + 1, st.0, st.1, fuel)
    }
}

/// The search from every node in ascending position, from the `i`-th on.
pub open spec fn dfs_from(a: Seq<Seq<usize>>, i: int, open: Seq<bool>, res: Seq<usize>) -> Seq<usize>
    decreases a.len() - i,
{
    if i < 0 || i >= a.len() {
        res
    } else {
        let st = dfs(a, i, open, res, a.len() as nat);
        dfs_from(a, i + 1, st.0, st.1)
    }
}

/// The order in which a depth-first search from every node in ascending
/// position finishes the nodes.
pub open spec fn dfs_order(a: Seq<Seq<usize>>) -> Seq<usize> {
    dfs_from(a, 0, Seq::new(a.len(), |k: int| true), Seq::empty())
}

proof fn lemma_stack_bound(stack: Seq<int>, n: int)
    requires
        stack.no_duplicates(),
        forall|i: int| 0 <= i < stack.len() ==> 0 <= #[trigger] stack[i] < n,
        0 <= n,
    ensures
        stack.len() <= n,
{
    stack.unique_seq_to_set();
    vstd::set_lib::lemma_int_range(0, n);
    assert(stack.to_set().subset_of(vstd::set_lib::set_int_range(0, n)));
    vstd::set_lib::lemma_len_subset(stack.to_set(), vstd::set_lib::set_int_range(0, n));
}

/// Visits node `u`: depth first through its dependencies, then finishes
/// it.  Meeting a node on the current path is a cycle, and the node is
/// returned as the error.
fn visit(
    adj: &Vec<Vec<usize>>,
    u: usize,
    unmarked: &mut Vec<bool>,
    temp: &mut Vec<bool>,
    result: &mut Vec<usize>,
    Ghost(stack): Ghost<Seq<int>>,
) -> (r: Result<(), usize>)
    requires
        u < adj.len(),
        adj_well_formed(adj_view(adj@)),
        search_state(adj_view(adj@), old(unmarked)@, old(temp)@, old(result)@),
        stack_state(adj_view(adj@), old(temp)@, stack),
        stack.len() > 0 ==> iedge(adj_view(adj@), stack[stack.len() - 1], u as int),
    ensures
        r is Ok ==> {
            &&& search_state(adj_view(adj@), final(unmarked)@, final(temp)@, final(result)@)
            &&& final(temp)@ == old(temp)@
            &&& !final(unmarked)@[u as int]
            &&& forall|k: int| 0 <= k < adj.len() && #[trigger] final(unmarked)@[k] ==> old(unmarked)@[k]
            &&& final(result)@.take(old(result)@.len() as int) == old(result)@
            &&& old(result)@.len() <= final(result)@.len()
            &&& (open_nodes(final(unmarked)@, final(temp)@), final(result)@) == dfs(
                adj_view(adj@),
                u as int,
                open_nodes(old(unmarked)@, old(temp)@),
                old(result)@,
                (adj.len() - stack.len()) as nat,
            )
        },
        r matches Err(c) ==> exists|path: Seq<int>| is_index_cycle(adj_view(adj@), path) && path[0] == c,
    decreases adj.len() - stack.len(),
{
    let ghost a = adj_view(adj@);
    proof {
        lemma_stack_bound(stack, a.len() as int);
    }
    if temp[u] {
        proof {
            assert(stack.contains(u as int));
            let k = choose|k: int| 0 <= k < stack.len() && stack[k] == u;
            let path = stack.subrange(k, stack.len() as int).push(u as int);
            assert(path[0] == u);
            assert forall|i: int| 0 <= i < path.len() - 1 implies #[trigger] iedge(a, path[i], path[i + 1]) by {
                if i < path.len() - 2 {
                    assert(path[i] == stack[k + i]);
                    assert(path[i + 1] == stack[k + i + 1]);
                    assert(iedge(a, stack[k + i], stack[k + i + 1]));
                } else {
                    assert(path[i] == stack[stack.len() - 1]);
                }
            }
            assert forall|i: int| 0 <= i < path.len() implies 0 <= #[trigger] path[i] < a.len() by {
                if i < path.len() - 1 {
                    assert(path[i] == stack[k + i]);
                }
            }
            assert(is_index_cycle(a, path));
        }
        return Err(u);
    }
    if unmarked[u] {
        let ghost unmarked0 = unmarked@;
        let ghost temp0 = temp@;
        let ghost result0 = result@;
        temp.set(u, true);
        let ghost stack2 = stack.push(u as int);
        proof {
            assert(!stack.contains(u as int));
            assert(stack2.no_duplicates()) by {
                assert forall|i: int, j: int| 0 <= i < j < stack2.len() implies stack2[i] != stack2[j] by {
                    if j == stack.len() {
                        assert(stack[i] == stack2[i]);
                    }
                }
            }
            assert(stack_state(a, temp@, stack2)) by {
                assert forall|k: int| 0 <= k < a.len() implies (#[trigger] temp@[k] <==> stack2.contains(k)) by {
                    if stack2.contains(k) {
                        let t = choose|t: int| 0 <= t < stack2.len() && stack2[t] == k;
                        if t < stack.len() {
                            assert(stack[t] == k);
                        }
                    }
                    if stack.contains(k) {
                        let t = choose|t: int| 0 <= t < stack.len() && stack[t] == k;
                        assert(stack2[t] == k);
                    }
                    if k == u {
                        assert(stack2[stack.len() as int] == k);
                    }
                }
                assert forall|i: int| 0 <= i < stack2.len() - 1 implies #[trigger] iedge(a, stack2[i], stack2[i + 1]) by {
                    if i < stack.len() - 1 {
                        assert(stack2[i] == stack[i] && stack2[i + 1] == stack[i + 1]);
                    }
                }
            }
            lemma_stack_bound(stack2, a.len() as int);
            assert(open_nodes(unmarked@, temp@) =~= open_nodes(unmarked0, temp0).update(u as int, false));
        }
        let mut t: usize = 0;
        while t < adj[u].len()
            invariant
                u < adj.len(),
                a == adj_view(adj@),
                adj_well_formed(a),
                search_state(a, unmarked@, temp@, result@),
                stack_state(a, temp@, stack2),
                stack2.len() <= a.len(),
                stack2 == stack.push(u as int),
                temp0.len() == a.len(),
                unmarked0.len() == a.len(),
                temp@ == temp0.update(u as int, true),
                !temp0[u as int],
                unmarked@[u as int],
                forall|k: int| 0 <= k < a.len() && #[trigger] unmarked@[k] ==> unmarked0[k],
                result@.take(result0.len() as int) == result0,
                result0.len() <= result@.len(),
                0 <= t <= a[u as int].len(),
                forall|e: int| 0 <= e < t ==> !unmarked@[#[trigger] a[u as int][e] as int],
                dfs_deps(a, u as int, t as int, open_nodes(unmarked@, temp@), result@, (a.len() - stack2.len()) as nat)
                    == dfs_deps(a, u as int, 0, open_nodes(unmarked0, temp0).update(u as int, false), result0,
                    (a.len() - stack2.len()) as nat),
            decreases a[u as int].len() - t,
        {
            let v = adj[u][t];
            proof {
                assert(a[u as int][t as int] == v);
                assert(iedge(a, stack2[stack2.len() - 1], v as int));
            }
            let ghost unmarked1 = unmarked@;
            let ghost result1 = result@;
            let ghost open1 = open_nodes(unmarked@, temp@);
            match visit(adj, v, unmarked, temp, result, Ghost(stack2)) {
                Err(c) => {
                    return Err(c);
                },
                Ok(()) => {},
            }
            proof {
                assert(temp@[u as int]);
                assert(result@.take(result0.len() as int) =~= result1.take(result0.len() as int));
                assert(dfs_deps(a, u as int, t as int, open1, result1, (a.len() - stack2.len()) as nat)
                    == dfs_deps(a, u as int, t + 1, open_nodes(unmarked@, temp@), result@, (a.len() - stack2.len()) as nat));
                assert forall|e: int| 0 <= e < t + 1 implies !unmarked@[#[trigger] a[u as int][e] as int] by {
                    if e < t {
                        assert(!unmarked1[a[u as int][e] as int]);
                    }
                }
            }
            t = t + 1;
        }
        let ghost result_before = result@;
        let ghost open_before = open_nodes(unmarked@, temp@);
        unmarked.set(u, false);
        temp.set(u, false);
        result.push(u);
        proof {
            assert(temp@ =~= temp0);
            assert(open_nodes(unmarked@, temp@) =~= open_before);
            assert(stack.len() < a.len());
            assert(!result_before.contains(u));
            let r2 = result@;
            assert(r2.take(result_before.len() as int) =~= result_before);
            assert(r2.take(result0.len() as int) =~= result0) by {
                assert(result_before.take(result0.len() as int) == result0);
            }
            assert forall|k: int| 0 <= k < a.len() implies (!#[trigger] unmarked@[k] <==> r2.contains(k as usize)) by {
                if k != u {
                    if r2.contains(k as usize) {
                        let q = choose|q: int| 0 <= q < r2.len() && r2[q] == k as usize;
                        if q < result_before.len() {
                            assert(result_before[q] == k);
                        }
                    }
                    if result_before.contains(k as usize) {
                        let q = choose|q: int| 0 <= q < result_before.len() && result_before[q] == k as usize;
                        assert(r2[q] == k);
                    }
                } else {
                    assert(r2[result_before.len() as int] == u);
                }
            }
            assert(r2.no_duplicates()) by {
                assert forall|i: int, j: int| 0 <= i < j < r2.len() implies r2[i] != r2[j] by {
                    if j == result_before.len() {
                        assert(r2[i] == result_before[i]);
                    }
                }
            }
            assert forall|p: int, e: int|
                0 <= p < r2.len() && 0 <= e < a[r2[p] as int].len() implies r2.take(p).contains(
                    #[trigger] a[r2[p] as int][e],
                ) by {
                if p < result_before.len() {
                    assert(r2.take(p) =~= result_before.take(p));
                    assert(r2[p] == result_before[p]);
                } else {
                    assert(r2.take(p) =~= result_before);
                    assert(!unmarked@[a[u as int][e] as int]) by {
                        assert(!unmarked@[a[u as int][e] as int] || a[u as int][e] == u);
                    }
                }
            }
        }
    }
    Ok(())
}

/// Orders all nodes, each after its dependencies, visiting them in
/// ascending position; fails with a node on a cycle.
fn order_nodes(adj: &Vec<Vec<usize>>) -> (r: Result<Vec<usize>, usize>)
    requires
        adj_well_formed(adj_view(adj@)),
    ensures
        r matches Ok(order) ==> {
            &&& order@.no_duplicates()
            &&& forall|p: int| 0 <= p < order.len() ==> (#[trigger] order@[p]) < adj.len()
            &&& forall|k: usize| k < adj.len() ==> #[trigger] order@.contains(k)
            &&& forall|p: int, e: int|
                0 <= p < order.len() && 0 <= e < adj_view(adj@)[order@[p] as int].len() ==> order@.take(p).contains(
                    #[trigger] adj_view(adj@)[order@[p] as int][e],
                )
            &&& order@ == dfs_order(adj_view(adj@))
        },
        r matches Err(c) ==> exists|path: Seq<int>| is_index_cycle(adj_view(adj@), path) && path[0] == c,
{
    let ghost a = adj_view(adj@);
    let n = adj.len();
    let mut unmarked: Vec<bool> = Vec::new();
    let mut temp: Vec<bool> = Vec::new();
    let mut i: usize = 0;
    while i < n
        invariant
            0 <= i <= n,
            n == adj.len(),
            unmarked.len() == i,
            temp.len() == i,
            forall|k: int| 0 <= k < i ==> #[trigger] unmarked@[k] && !temp@[k],
        decreases n - i,
    {
        unmarked.push(true);
        temp.push(false);
        i = i + 1;
    }
    let mut result: Vec<usize> = Vec::new();
    proof {
        assert(search_state(a, unmarked@, temp@, result@));
        assert(stack_state(a, temp@, Seq::<int>::empty()));
        assert(open_nodes(unmarked@, temp@) =~= Seq::new(a.len(), |k: int| true));
    }
    let mut i: usize = 0;
    while i < n
        invariant
            0 <= i <= n,
            n == adj.len(),
            a == adj_view(adj@),
            adj_well_formed(a),
            search_state(a, unmarked@, temp@, result@),
            forall|k: int| 0 <= k < n ==> !#[trigger] temp@[k],
            forall|k: int| 0 <= k < i ==> !#[trigger] unmarked@[k],
            dfs_from(a, i as int, open_nodes(unmarked@, temp@), result@) == dfs_order(a),
        decreases n - i,
    {
        let ghost open0 = open_nodes(unmarked@, temp@);
        let ghost result0 = result@;
        proof {
            assert(dfs_from(a, i as int, open0, result0) == dfs_from(a, i + 1, dfs(a, i as int, open0, result0, a.len() as nat).0,
                dfs(a, i as int, open0, result0, a.len() as nat).1));
        }
        if unmarked[i] {
            proof {
                assert(stack_state(a, temp@, Seq::<int>::empty()));
            }
            let ghost unmarked1 = unmarked@;
            match visit(adj, i, &mut unmarked, &mut temp, &mut result, Ghost(Seq::empty())) {
                Err(c) => {
                    return Err(c);
                },
                Ok(()) => {},
            }
            proof {
                assert forall|k: int| 0 <= k < i + 1 implies !#[trigger] unmarked@[k] by {
                    if k < i {
                        assert(!unmarked1[k]);
                    }
                }
            }
        }
        i = i + 1;
    }
    proof {
        assert forall|k: usize| k < adj.len() implies #[trigger] result@.contains(k) by {
            assert(!unmarked@[k as int]);
        }
    }
    Ok(result)
}

proof fn lemma_path_descends(g: PhaseGraph, order: Seq<Seq<char>>, path: Seq<Seq<char>>, i: int)
    requires
        is_phase_order(g, order),
        path.len() >= 1,
        forall|j: int| 0 <= j < path.len() ==> order.contains(#[trigger] path[j]),
        forall|j: int| 0 <= j < path.len() - 1 ==> depends(g, #[trigger] path[j], path[j + 1]),
        0 <= i < path.len(),
    ensures
        order.index_of(path[i]) <= order.index_of(path[0]) - i,
    decreases i,
{
    if i > 0 {
        lemma_path_descends(g, order, path, i - 1);
        let a = order.index_of(path[i - 1]);
        let b = order.index_of(path[i]);
        assert(order.contains(path[i - 1]));
        assert(order.contains(path[i]));
        assert(order[a] == path[i - 1]);
        assert(order[b] == path[i]);
        assert(depends(g, path[i - 1], path[i]));
        assert(depends(g, order[a], order[b]));
    }
}

proof fn lemma_depends_names(g: PhaseGraph, a: Seq<char>, b: Seq<char>)
    requires
        depends(g, a, b),
    ensures
        is_phase_name(g, a),
        is_phase_name(g, b),
{
    assert(is_configured(g, a));
    let c = config_index(g, a);
    assert(mentions(g[c], a));
    assert(deps_of(g, a) == g[c].1.depends_on);
    assert(g[c].1.depends_on.contains(b));
    assert(mentions(g[c], b));
}

/// A phase order rules out a dependency cycle.
pub proof fn lemma_order_excludes_cycle(g: PhaseGraph, order: Seq<Seq<char>>)
    requires
        is_phase_order(g, order),
    ensures
        !has_dependency_cycle(g),
{
    if has_dependency_cycle(g) {
        let path = choose|path: Seq<Seq<char>>| is_dependency_cycle(g, path);
        assert forall|j: int| 0 <= j < path.len() implies order.contains(#[trigger] path[j]) by {
            if j < path.len() - 1 {
                lemma_depends_names(g, path[j], path[j + 1]);
            } else {
                lemma_depends_names(g, path[j - 1], path[j]);
            }
        }
        lemma_path_descends(g, order, path, path.len() - 1);
    }
}

/// All phase names of the configuration, each once, in ascending order.
pub open spec fn sorted_phase_names(g: PhaseGraph) -> Seq<Seq<char>> {
    choose|s: Seq<Seq<char>>| strictly_sorted(s) && forall|x: Seq<char>| #[trigger] s.contains(x) <==> is_phase_name(g, x)
}

/// The position of `x` among the names.
pub open spec fn name_position(nv: Seq<Seq<char>>, x: Seq<char>) -> int {
    choose|k: int| 0 <= k < nv.len() && nv[k] == x
}

/// The dependencies of each name, by position among the names.
pub open spec fn phase_adjacency(g: PhaseGraph, nv: Seq<Seq<char>>) -> Seq<Seq<usize>> {
    Seq::new(
        nv.len(),
        |i: int| Seq::new(deps_of(g, nv[i]).len(), |e: int| name_position(nv, deps_of(g, nv[i])[e]) as usize),
    )
}

/// The order of a depth-first search over the phase names: names are
/// taken in ascending order; each not yet finished is searched through its
/// dependencies in the order they are listed, and finished after them.
pub open spec fn dfs_phase_order(g: PhaseGraph) -> Seq<Seq<char>> {
    dfs_order(phase_adjacency(g, sorted_phase_names(g))).map_values(|k: usize| sorted_phase_names(g)[k as int])
}

proof fn lemma_sorted_agree_upto(s1: Seq<Seq<char>>, s2: Seq<Seq<char>>, i: int)
    requires
        strictly_sorted(s1),
        strictly_sorted(s2),
        forall|x: Seq<char>| #[trigger] s1.contains(x) <==> s2.contains(x),
        0 <= i <= s1.len(),
        i <= s2.len(),
    ensures
        forall|k: int| #![trigger s1[k]] #![trigger s2[k]] 0 <= k < i ==> s1[k] == s2[k],
    decreases i,
{
    if i > 0 {
        lemma_sorted_agree_upto(s1, s2, i - 1);
        let x = s1[i - 1];
        assert(s1.contains(x));
        assert(s2.contains(x));
        let j = choose|j: int| 0 <= j < s2.len() && s2[j] == x;
        lemma_text_lt_irreflexive(x);
        if j < i - 1 {
            assert(s1[j] == x);
            assert(text_lt(s1[j], s1[i - 1]));
        } else if j > i - 1 {
            let y = s2[i - 1];
            assert(text_lt(y, x));
            assert(s2.contains(y));
            assert(s1.contains(y));
            let m = choose|m: int| 0 <= m < s1.len() && s1[m] == y;
            lemma_text_lt_irreflexive(y);
            if m < i - 1 {
                assert(s2[m] == y);
                assert(text_lt(s2[m], s2[i - 1]));
            } else if m > i - 1 {
                assert(text_lt(s1[i - 1], s1[m]));
                lemma_text_lt_transitive(x, y, x);
            }
        }
    }
}

/// Two ascending sequences of names with the same names are the same.
proof fn lemma_sorted_unique(s1: Seq<Seq<char>>, s2: Seq<Seq<char>>)
    requires
        strictly_sorted(s1),
        strictly_sorted(s2),
        forall|x: Seq<char>| #[trigger] s1.contains(x) <==> s2.contains(x),
    ensures
        s1 == s2,
{
    if s1.len() > s2.len() {
        lemma_sorted_agree_upto(s1, s2, s2.len() as int);
        let x = s1[s2.len() as int];
        assert(s1.contains(x));
        assert(s2.contains(x));
        let j = choose|j: int| 0 <= j < s2.len() && s2[j] == x;
        assert(s1[j] == x);
        lemma_text_lt_irreflexive(x);
        assert(text_lt(s1[j], s1[s2.len() as int]));
    } else if s2.len() > s1.len() {
        lemma_sorted_agree_upto(s2, s1, s1.len() as int);
        let x = s2[s1.len() as int];
        assert(s2.contains(x));
        assert(s1.contains(x));
        let j = choose|j: int| 0 <= j < s1.len() && s1[j] == x;
        assert(s2[j] == x);
        lemma_text_lt_irreflexive(x);
        assert(text_lt(s2[j], s2[s1.len() as int]));
    } else {
        lemma_sorted_agree_upto(s1, s2, s1.len() as int);
        assert(s1 =~= s2);
    }
}

/// The order in which the configured phases run: every phase name once,
/// each after the phases it depends on, as a depth-first search gives it
/// that takes the names in ascending order and the dependencies of each in
/// the order they are listed.  Where some phase depends transitively on
/// itself, the error names a phase on such a cycle.  The configuration
/// holds each phase name once, as the keys of a map do.
pub fn topological_sort(phases: &Vec<(String, Phase)>) -> (r: Result<Vec<String>, ShutdownError>)
    requires
        names_distinct(phases_view(phases@)),
    ensures
        r is Ok <==> !has_dependency_cycle(phases_view(phases@)),
        r matches Ok(order) ==> is_phase_order(phases_view(phases@), text_views(order@)),
        r matches Ok(order) ==> text_views(order@) == dfs_phase_order(phases_view(phases@)),
        r matches Err(e) ==> e matches ShutdownError::Cycle { phase } && exists|path: Seq<Seq<char>>|
            is_dependency_cycle(phases_view(phases@), path) && path[0] == phase@,
{
    let ghost g = phases_view(phases@);
    let names = known_phases(phases);
    let ghost nv = text_views(names@);
    proof {
        lemma_sorted_distinct(nv);
    }
    let adj = build_adjacency(phases, &names);
    let ghost a = adj_view(adj@);
    assert(adj_well_formed(a));
    match order_nodes(&adj) {
        Err(c) => {
            proof {
                let path = choose|path: Seq<int>| is_index_cycle(a, path) && path[0] == c;
                let npath = path.map_values(|k: int| nv[k]);
                assert forall|i: int| 0 <= i < npath.len() - 1 implies depends(g, #[trigger] npath[i], npath[i + 1]) by {
                    assert(iedge(a, path[i], path[i + 1]));
                    let e = choose|e: int| 0 <= e < a[path[i]].len() && a[path[i]][e] == path[i + 1] as usize;
                    assert(nv[a[path[i]][e] as int] == deps_of(g, nv[path[i]])[e]);
                    assert(deps_of(g, npath[i])[e] == npath[i + 1]);
                }
                assert(is_dependency_cycle(g, npath));
            }
            Err(ShutdownError::Cycle { phase: names[c].clone() })
        },
        Ok(order) => {
            let mut out: Vec<String> = Vec::new();
            let mut p: usize = 0;
            while p < order.len()
                invariant
                    0 <= p <= order.len(),
                    forall|q: int| 0 <= q < order.len() ==> (#[trigger] order@[q]) < names.len(),
                    out.len() == p,
                    forall|q: int| 0 <= q < p ==> #[trigger] out@[q]@ == nv[order@[q] as int],
                    nv == text_views(names@),
                decreases order.len() - p,
            {
                out.push(names[order[p]].clone());
                p = p + 1;
            }
            proof {
                let ov = text_views(out@);
                assert forall|q: int| 0 <= q < ov.len() implies #[trigger] ov[q] == nv[order@[q] as int] by {
                    assert(ov[q] == out@[q]@);
                }
                assert(ov.no_duplicates()) by {
                    assert forall|i: int, j: int| 0 <= i < ov.len() && 0 <= j < ov.len() && i != j implies ov[i] != ov[j] by {
                        assert(order@[i] != order@[j]);
                        assert(ov[i] == nv[order@[i] as int]);
                        assert(ov[j] == nv[order@[j] as int]);
                    }
                }
                assert forall|x: Seq<char>| #[trigger] ov.contains(x) <==> is_phase_name(g, x) by {
                    if ov.contains(x) {
                        let q = choose|q: int| 0 <= q < ov.len() && ov[q] == x;
                        assert(nv[order@[q] as int] == x);
                        assert(nv.contains(x));
                    }
                    if is_phase_name(g, x) {
                        assert(nv.contains(x));
                        let k = choose|k: int| 0 <= k < nv.len() && nv[k] == x;
                        let ku = k as usize;
                        assert(order@.contains(ku));
                        let q = choose|q: int| 0 <= q < order.len() && order@[q] == ku;
                        assert(ov[q] == x);
                    }
                }
                assert forall|i: int, j: int|
                    0 <= i < ov.len() && 0 <= j < ov.len() && depends(g, #[trigger] ov[i], #[trigger] ov[j]) implies j < i by {
                    let di = deps_of(g, ov[i]);
                    let e = choose|e: int| 0 <= e < di.len() && di[e] == ov[j];
                    let ki = order@[i] as int;
                    assert(ov[i] == nv[ki]);
                    assert(a[ki].len() == di.len());
                    assert(nv[a[ki][e] as int] == di[e]);
                    assert(nv[a[ki][e] as int] == nv[order@[j] as int]);
                    assert(a[ki][e] == order@[j]);
                    assert(order@.take(i).contains(a[ki][e]));
                    let q = choose|q: int| 0 <= q < i && order@.take(i)[q] == a[ki][e];
                    assert(order@[q] == order@[j]);
                }
                assert(is_phase_order(g, ov));
                lemma_order_excludes_cycle(g, ov);
                // The names and adjacency are those of the specification.
                lemma_sorted_unique(nv, sorted_phase_names(g));
                let pa = phase_adjacency(g, nv);
                assert forall|i: int| 0 <= i < a.len() implies #[trigger] a[i] =~= pa[i] by {
                    assert forall|e: int| 0 <= e < a[i].len() implies a[i][e] == pa[i][e] by {
                        let d = deps_of(g, nv[i])[e];
                        assert(nv[a[i][e] as int] == d);
                        let k = name_position(nv, d);
                        assert(0 <= k < nv.len() && nv[k] == d);
                        if k != a[i][e] as int {
                            if k < a[i][e] as int {
                                assert(text_lt(nv[k], nv[a[i][e] as int]));
                            } else {
                                assert(text_lt(nv[a[i][e] as int], nv[k]));
                            }
                            lemma_text_lt_irreflexive(d);
                        }
                    }
                }
                assert(a =~= pa);
                assert(ov =~= order@.map_values(|k: usize| nv[k as int]));
            }
            Ok(out)
        },
    }
}

} // verus!
