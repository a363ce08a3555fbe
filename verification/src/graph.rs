//! The dependency graph of a configuration's checks: node indices, edges
//! from dependency to dependent, execution waves, and cycle detection.

use vstd::prelude::*;

use crate::config::Config;
use crate::config::Verification;
use crate::hasher::seq_has;
use crate::hasher::views_of;
use crate::text::str_eq;

verus! {

/// Why a graph is rejected.
#[derive(Debug)]
pub enum GraphError {
    /// The dependencies loop; the named check is blocked by the loop.
    Cycle { name: String },
}

impl GraphError {
    /// A human-readable description.
    pub fn message(&self) -> String {
        let mut m = String::new();
        match self {
            GraphError::Cycle { name } => {
                m.append("Circular dependency detected involving: ");
                m.append(name.as_str());
            },
        }
        m
    }
}

/// Every listed edge stands for a dependency name that resolves to the
/// pointed-at node's name.
pub open spec fn edges_from_deps(dep_list: Seq<String>, names: Seq<String>, edges: Seq<usize>) -> bool {
    forall|x: int| #![trigger edges[x]]
        0 <= x < edges.len() ==> exists|k: int|
            0 <= k < dep_list.len() && (#[trigger] dep_list[k])@ == names[edges[x] as int]@
}

/// Every node's edge list came from its dependency names.
pub open spec fn edges_name_deps(
    vs: Seq<Verification>,
    names: Seq<String>,
    deps: Seq<Vec<usize>>,
) -> bool {
    forall|a: int| #![trigger deps[a]]
        0 <= a < deps.len() ==> edges_from_deps(vs[a].depends_on@, names, deps[a]@)
}

/// Whether one check names another as a dependency.
#[verifier::opaque]
pub open spec fn check_depends_on(vs: Seq<Verification>, i: int, j: int) -> bool {
    0 <= i < vs.len() && 0 <= j < vs.len() && exists|k: int|
        0 <= k < vs[i].depends_on@.len() && (#[trigger] vs[i].depends_on@[k])@ == vs[j].name@
}

/// A dependency chain of at most `k` name-resolved edges leads from
/// check `i` to check `j`.
pub open spec fn chain_reaches(vs: Seq<Verification>, i: int, j: int, k: nat) -> bool
    decreases k,
{
    if i == j {
        true
    } else if k == 0 {
        false
    } else {
        exists|d: int|
            #[trigger] check_depends_on(vs, i, d) && chain_reaches(vs, d, j, (k - 1) as nat)
    }
}

/// The check lies on a dependency cycle: one of its dependencies leads
/// back to it.
#[verifier::opaque]
pub open spec fn on_dependency_cycle(vs: Seq<Verification>, i: int) -> bool {
    exists|j: int, k: nat|
        #![trigger check_depends_on(vs, i, j), chain_reaches(vs, j, i, k)]
        check_depends_on(vs, i, j) && chain_reaches(vs, j, i, k)
}

/// The name belongs to a check that lies on a dependency cycle.
pub open spec fn cycle_named(vs: Seq<Verification>, name: Seq<char>) -> bool {
    exists|x: int|
        0 <= x < vs.len() && (#[trigger] vs[x]).name@ == name && on_dependency_cycle(vs, x)
}

/// A chain runs from any point of an edge-connected path to a final
/// check one edge past its end.
proof fn lemma_chain_from_path(vs: Seq<Verification>, path: Seq<int>, s: int, d: int)
    requires
        0 <= s < path.len(),
        forall|k: int|
            0 <= k < path.len() - 1 ==> check_depends_on(vs, #[trigger] path[k], path[k + 1]),
        check_depends_on(vs, path[path.len() - 1], d),
    ensures
        exists|k: nat| chain_reaches(vs, path[s], d, k),
    decreases path.len() - s,
{
    if s == path.len() - 1 {
        assert(chain_reaches(vs, d, d, 0));
        assert(chain_reaches(vs, path[s], d, 1));
    } else {
        lemma_chain_from_path(vs, path, s + 1, d);
        let k2 = choose|k2: nat| #[trigger] chain_reaches(vs, path[s + 1], d, k2);
        assert(check_depends_on(vs, path[s], path[s + 1]));
        assert(chain_reaches(vs, path[s], d, k2 + 1));
    }
}

/// Whether the unmarked checks block one another, the named check among
/// them: every unmarked check depends on an unmarked one, so none of them
/// can ever be scheduled.
pub open spec fn blocked_flags_with(
    vs: Seq<Verification>,
    flags: Seq<bool>,
    name: Seq<char>,
) -> bool {
    &&& flags.len() == vs.len()
    &&& forall|i: int| #![trigger flags[i]]
        0 <= i < flags.len() && !flags[i] ==> exists|j: int|
            0 <= j < flags.len() && !flags[j] && check_depends_on(vs, i, j)
    &&& exists|m: int| 0 <= m < flags.len() && !flags[m] && vs[m].name@ == name
}

/// Some marking leaves a nonempty self-blocking rest with the named check
/// inside: the witness a dependency cycle leaves behind (every member is
/// on the cycle or blocked by it).
pub open spec fn blocked_set_with(vs: Seq<Verification>, name: Seq<char>) -> bool {
    exists|flags: Seq<bool>| #[trigger] blocked_flags_with(vs, flags, name)
}

/// Whether a node index stands in some wave.
pub open spec fn in_waves(w: Seq<Vec<usize>>, x: int) -> bool {
    exists|t: int, p: int| 0 <= t < w.len() && 0 <= p < w[t]@.len() && (#[trigger] w[t]@[p]) == x
}

/// Every node in no wave has a dependency in no wave: what the wave
/// computation guarantees about the nodes it leaves out.
pub open spec fn stuck_have_stuck_deps(w: Seq<Vec<usize>>, deps: Seq<Vec<usize>>, n: int) -> bool {
    forall|i: int| #![trigger in_waves(w, i)]
        0 <= i < n && !in_waves(w, i) ==> exists|j: int|
            0 <= j < deps[i]@.len() && !in_waves(w, (#[trigger] deps[i]@[j]) as int)
}

/// Each wave takes every node that stands in no earlier wave and whose
/// dependencies all do: no runnable node is delayed.
pub open spec fn waves_greedy(w: Seq<Vec<usize>>, deps: Seq<Vec<usize>>, n: int) -> bool {
    forall|t: int, x: int|
        0 <= t < w.len() && 0 <= x < n && !(#[trigger] in_waves(w.take(t), x)) && (forall|j: int|
            0 <= j < deps[x]@.len() ==> in_waves(w.take(t), (#[trigger] deps[x]@[j]) as int))
            ==> in_wave(w[t]@, x)
}

/// An unplaced node names a self-blocking set: the unplaced nodes, each
/// depending (by name) on an unplaced one.
/// The unplaced nodes, as a set.
pub open spec fn unplaced_set(flags: Seq<bool>, n: int) -> Set<int> {
    Set::new(|x: int| 0 <= x < n && !flags[x])
}

/// A set of nodes each of which has a dependency edge back into the set.
#[verifier::opaque]
pub open spec fn set_closed_under_deps(s: Set<int>, deps: Seq<Vec<usize>>, n: int) -> bool {
    forall|x: int| #![trigger deps[x]]
        s.contains(x) ==> 0 <= x < n && exists|j: int|
            0 <= j < deps[x]@.len() && s.contains((#[trigger] deps[x]@[j]) as int)
}

/// The stuck property over the placed flags: an unplaced node has an
/// unplaced dependency.
pub open spec fn unplaced_have_unplaced_deps(
    flags: Seq<bool>,
    deps: Seq<Vec<usize>>,
    n: int,
) -> bool {
    forall|i: int| #![trigger flags[i]]
        0 <= i < n && !flags[i] ==> exists|j: int|
            0 <= j < deps[i]@.len() && !flags[(#[trigger] deps[i]@[j]) as int]
}

/// Every unplaced node depends, by name, on an unplaced node.
#[verifier::spinoff_prover]
proof fn lemma_unplaced_members(
    vs: Seq<Verification>,
    names: Seq<String>,
    deps: Seq<Vec<usize>>,
    flags: Seq<bool>,
    n: int,
)
    requires
        n == vs.len(),
        n == names.len(),
        deps.len() == n,
        flags.len() == n,
        forall|k: int| 0 <= k < n ==> (#[trigger] names[k])@ == vs[k].name@,
        forall|a: int, j: int|
            0 <= a < n && 0 <= j < deps[a]@.len() ==> (#[trigger] deps[a]@[j]) < n,
        edges_name_deps(vs, names, deps),
        unplaced_have_unplaced_deps(flags, deps, n),
    ensures
        forall|i: int| #![trigger flags[i]]
            0 <= i < flags.len() && !flags[i] ==> exists|j: int|
                0 <= j < flags.len() && !flags[j] && check_depends_on(vs, i, j),
{
    assert forall|i: int| #![trigger flags[i]]
        0 <= i < flags.len() && !flags[i] implies exists|j: int|
        0 <= j < flags.len() && !flags[j] && check_depends_on(vs, i, j) by {
        reveal(check_depends_on);
        let j = choose|j: int| 0 <= j < deps[i]@.len() && !flags[(#[trigger] deps[i]@[j]) as int];
        let d = deps[i]@[j] as int;
        assert(edges_from_deps(vs[i].depends_on@, names, deps[i]@));
        let k = choose|k: int|
            0 <= k < vs[i].depends_on@.len() && (#[trigger] vs[i].depends_on@[k])@ == names[(
                deps[i]@[j]) as int]@;
        assert(vs[i].depends_on@[k]@ == vs[d].name@);
        assert(check_depends_on(vs, i, d));
    }
}

/// A marking whose unmarked checks depend on unmarked checks, with an
/// unmarked member, witnesses the blocked set.
#[verifier::spinoff_prover]
proof fn lemma_blocked_assemble(vs: Seq<Verification>, flags: Seq<bool>, m: int)
    requires
        flags.len() == vs.len(),
        forall|i: int| #![trigger flags[i]]
            0 <= i < flags.len() && !flags[i] ==> exists|j: int|
                0 <= j < flags.len() && !flags[j] && check_depends_on(vs, i, j),
        0 <= m < flags.len(),
        !flags[m],
    ensures
        blocked_set_with(vs, vs[m].name@),
{
    assert(blocked_flags_with(vs, flags, vs[m].name@));
}

/// Whether a node index stands in one wave./// Whether a node index stands in one wave./// Whether a node index stands in one wave./// Whether a node index stands in one wave.
pub open spec fn in_wave(w: Seq<usize>, x: int) -> bool {
    exists|p: int| 0 <= p < w.len() && (#[trigger] w[p]) == x
}

/// The dependency graph: checks as node indices, each node listing the
/// indices it depends on, together with the execution waves computed at
/// construction.
pub struct DependencyGraph {
    /// Node index to check name.
    pub names: Vec<String>,
    /// Node index to the indices of its dependencies.
    pub deps: Vec<Vec<usize>>,
    /// The waves: wave `t` holds every node whose dependencies all stand
    /// in waves before `t`.
    pub waves: Vec<Vec<usize>>,
}

impl DependencyGraph {
    /// Edges pair with nodes and point in range.
    pub open spec fn wf(self) -> bool {
        &&& self.deps@.len() == self.names@.len()
        &&& forall|i: int, j: int|
            0 <= i < self.deps@.len() && 0 <= j < self.deps@[i]@.len() ==> (
            #[trigger] self.deps@[i]@[j]) < self.names@.len()
    }

    /// The waves list every node at most once, and every dependency of a
    /// listed node stands in an earlier wave.
    pub open spec fn waves_ok(self) -> bool {
        &&& forall|t: int, p: int|
            0 <= t < self.waves@.len() && 0 <= p < self.waves@[t]@.len() ==> (
            #[trigger] self.waves@[t]@[p]) < self.names@.len()
        &&& forall|t: int, p: int, u: int, q: int|
            0 <= t < self.waves@.len() && 0 <= p < self.waves@[t]@.len() && 0 <= u
                < self.waves@.len() && 0 <= q < self.waves@[u]@.len() && (t != u || p != q) ==> (
            #[trigger] self.waves@[t]@[p]) != (#[trigger] self.waves@[u]@[q])
        &&& forall|t: int, p: int, j: int|
            0 <= t < self.waves@.len() && 0 <= p < self.waves@[t]@.len() && 0 <= j < self.deps@[(
                #[trigger] self.waves@[t]@[p]) as int]@.len() ==> in_waves(
                self.waves@.take(t),
                (#[trigger] self.deps@[self.waves@[t]@[p] as int]@[j]) as int,
            )
    }

    /// Every node stands in some wave: the graph has no cycle.
    pub open spec fn waves_complete(self) -> bool {
        forall|i: int| 0 <= i < self.names@.len() ==> #[trigger] in_waves(self.waves@, i)
    }

    /// No wave is empty, and no runnable node is delayed: together with
    /// `waves_ok` this pins the waves down as the canonical layering.
    pub open spec fn waves_tight(self) -> bool {
        &&& forall|t: int| 0 <= t < self.waves@.len() ==> (#[trigger] self.waves@[t])@.len() > 0
        &&& waves_greedy(self.waves@, self.deps@, self.names@.len() as int)
    }

    /// Build the graph from the checks of a configuration.
    pub fn from_config(config: &Config) -> (r: Result<DependencyGraph, GraphError>)
        ensures
            r matches Ok(g) ==> g.wf() && g.waves_ok() && g.waves_complete() && g.waves_tight()
                && views_of(g.names@) == crate::config::verifications_of(*config).map_values(
                |v: Verification| v.name@,
            ),
            r matches Err(GraphError::Cycle { name }) ==> blocked_set_with(
                crate::config::verifications_of(*config),
                name@,
            ) && cycle_named(crate::config::verifications_of(*config), name@),
    {
        let vs = config.verifications_only();
        let r = Self::from_verifications(&vs);
        proof {
            assert(vs@.map_values(|v: &Verification| *v) == crate::config::verifications_of(
                *config,
            ));
            match &r {
                Ok(_) => {
                    assert(vs@.map_values(|v: &Verification| v.name@)
                        =~= crate::config::verifications_of(*config).map_values(
                        |v: Verification| v.name@,
                    ));
                },
                Err(GraphError::Cycle { name }) => {
                    assert(blocked_set_with(
                        vs@.map_values(|v: &Verification| *v),
                        name@,
                    ));
                    assert(blocked_set_with(
                        crate::config::verifications_of(*config),
                        name@,
                    ));
                    assert(cycle_named(crate::config::verifications_of(*config), name@));
                },
            }
        }
        r
    }

    /// Build the graph from a list of checks.  Dependencies naming no
    /// check (subprojects) carry no edge here; the runner resolves them
    /// itself.  A dependency cycle is an error naming a blocked check.
    #[verifier::rlimit(100)]
    #[verifier::spinoff_prover]
    pub fn from_verifications(verifications: &Vec<&Verification>) -> (r: Result<
        DependencyGraph,
        GraphError,
    >)
        ensures
            r matches Ok(g) ==> g.wf() && g.waves_ok() && g.waves_complete() && g.waves_tight()
                && views_of(g.names@)
                == verifications@.map_values(|v: &Verification| v.name@),
            r matches Err(GraphError::Cycle { name }) ==> blocked_set_with(
                verifications@.map_values(|v: &Verification| *v),
                name@,
            ) && cycle_named(verifications@.map_values(|v: &Verification| *v), name@),
    {
        let ghost vs = verifications@.map_values(|v: &Verification| *v);
        let n = verifications.len();
        let mut names: Vec<String> = Vec::new();
        let mut i: usize = 0;
        while i < n
            invariant
                i <= n,
                n == verifications@.len(),
                names@.len() == i,
                forall|k: int| 0 <= k < i ==> (#[trigger] names@[k])@ == verifications@[k].name@,
            decreases n - i,
        {
            names.push(verifications[i].name.clone());
            i = i + 1;
        }
        let mut deps: Vec<Vec<usize>> = Vec::new();
        let mut i: usize = 0;
        while i < n
            invariant
                vs == verifications@.map_values(|v: &Verification| *v),
                i <= n,
                n == verifications@.len(),
                names@.len() == n,
                forall|k: int| 0 <= k < n ==> (#[trigger] names@[k])@ == verifications@[k].name@,
                deps@.len() == i,
                forall|a: int, j: int|
                    0 <= a < i && 0 <= j < deps@[a]@.len() ==> (#[trigger] deps@[a]@[j]) < n,
                edges_name_deps(vs, names@, deps@),
            decreases n - i,
        {
            let v = verifications[i];
            proof {
                assert(vs[i as int] == *verifications@[i as int]);
            }
            let dn = v.depends_on.len();
            let mut edges: Vec<usize> = Vec::new();
            let mut j: usize = 0;
            while j < dn
                invariant
                    vs == verifications@.map_values(|v: &Verification| *v),
                    i < n,
                    n == verifications@.len(),
                    vs[i as int] == *verifications@[i as int],
                    j <= dn,
                    n == names@.len(),
                    dn == v.depends_on@.len(),
                    v == verifications@[i as int],
                    forall|k: int| 0 <= k < edges@.len() ==> (#[trigger] edges@[k]) < n,
                    edges_from_deps(v.depends_on@, names@, edges@),
                decreases dn - j,
            {
                let dep = &v.depends_on[j];
                let mut p: usize = 0;
                while p < n
                    invariant
                        vs == verifications@.map_values(|v: &Verification| *v),
                        i < n,
                        n == verifications@.len(),
                        vs[i as int] == *verifications@[i as int],
                        j < dn,
                        p <= n,
                        n == names@.len(),
                        dn == v.depends_on@.len(),
                        v == verifications@[i as int],
                        dep == &v.depends_on@[j as int],
                        forall|k: int| 0 <= k < edges@.len() ==> (#[trigger] edges@[k]) < n,
                        edges_from_deps(v.depends_on@, names@, edges@),
                    decreases n - p,
                {
                    if str_eq(names[p].as_str(), dep.as_str()) {
                        let ghost edges0 = edges@;
                        edges.push(p);
                        proof {
                            let x = edges@.len() - 1;
                            assert(edges@[x] == p as int);
                            assert(v.depends_on@[j as int]@ == names@[p as int]@);
                            assert forall|y: int| #![trigger edges@[y]]
                                0 <= y < edges@.len() implies exists|k: int|
                                0 <= k < v.depends_on@.len() && (#[trigger] v.depends_on@[k])@
                                    == names@[(edges@[y]) as int]@ by {
                                if y < edges0.len() {
                                    assert(edges@[y] == edges0[y]);
                                    let k = choose|k: int|
                                        0 <= k < v.depends_on@.len() && (
                                        #[trigger] v.depends_on@[k])@ == names@[(
                                        edges0[y]) as int]@;
                                } else {
                                    assert(v.depends_on@[j as int]@ == names@[(
                                    edges@[y]) as int]@);
                                }
                            }
                            assert(edges_from_deps(v.depends_on@, names@, edges@));
                        }
                        break ;
                    }
                    p = p + 1;
                }
                j = j + 1;
            }
            let ghost deps0 = deps@;
            deps.push(edges);
            proof {
                assert forall|a: int| 0 <= a < deps@.len() implies edges_from_deps(
                    vs[a].depends_on@,
                    names@,
                    deps@[a]@,
                ) by {
                    if a < i {
                        assert(deps@[a] == deps0[a]);
                        assert(edges_from_deps(vs[a].depends_on@, names@, deps0[a]@));
                    } else {
                        assert(vs[a].depends_on@ == v.depends_on@);
                        assert(edges_from_deps(v.depends_on@, names@, deps@[a]@));
                    }
                }
                assert(edges_name_deps(vs, names@, deps@));
            }
            i = i + 1;
        }
        let (waves, placed) = compute_waves(n, &deps);
        proof {
            assert forall|k: int| 0 <= k < n implies (#[trigger] names@[k])@ == vs[k].name@ by {
                assert(vs[k] == *verifications@[k]);
            }
        }
        match first_unset(&placed) {
            Some(i) => {
                let nm = cycle_error_name(Ghost(vs), &names, &deps, &placed, i);
                return Err(GraphError::Cycle { name: nm });
            },
            None => (),
        }
        let g = DependencyGraph { names, deps, waves };
        proof {
            assert(views_of(g.names@) =~= verifications@.map_values(|v: &Verification| v.name@));
            assert forall|x: int| 0 <= x < g.names@.len() implies #[trigger] in_waves(
                g.waves@,
                x,
            ) by {
                assert(placed@[x]);
            }
        }
        Ok(g)
    }

    /// The execution order: wave after wave of check names, every check
    /// after all it depends on.
    pub fn execution_waves(&self) -> (r: Vec<Vec<String>>)
        requires
            self.wf(),
            self.waves_ok(),
        ensures
            r@.len() == self.waves@.len(),
            forall|t: int| 0 <= t < r@.len() ==> (#[trigger] r@[t]@.len()) == self.waves@[t]@.len(),
            forall|t: int, p: int|
                0 <= t < r@.len() && 0 <= p < r@[t]@.len() ==> (#[trigger] r@[t]@[p])@
                    == self.names@[self.waves@[t]@[p] as int]@,
    {
        let mut out: Vec<Vec<String>> = Vec::new();
        let tn = self.waves.len();
        let mut t: usize = 0;
        while t < tn
            invariant
                self.wf(),
                self.waves_ok(),
                t <= tn,
                tn == self.waves@.len(),
                out@.len() == t,
                forall|u: int| 0 <= u < t ==> (#[trigger] out@[u]@.len()) == self.waves@[u]@.len(),
                forall|u: int, p: int|
                    0 <= u < t && 0 <= p < out@[u]@.len() ==> (#[trigger] out@[u]@[p])@
                        == self.names@[self.waves@[u]@[p] as int]@,
            decreases tn - t,
        {
            let wl = self.waves[t].len();
            let mut wave: Vec<String> = Vec::new();
            let mut p: usize = 0;
            while p < wl
                invariant
                    self.wf(),
                    self.waves_ok(),
                    t < tn,
                    tn == self.waves@.len(),
                    p <= wl,
                    wl == self.waves@[t as int]@.len(),
                    wave@.len() == p,
                    forall|q: int|
                        0 <= q < p ==> (#[trigger] wave@[q])@ == self.names@[self.waves@[t as int]@[q] as int]@,
                decreases wl - p,
            {
                let idx = self.waves[t][p];
                wave.push(self.names[idx].clone());
                p = p + 1;
            }
            out.push(wave);
            t = t + 1;
        }
        out
    }

    /// The index of a named node.
    fn index_of(&self, name: &str) -> (r: Option<usize>)
        ensures
            r matches Some(i) ==> i < self.names@.len() && self.names@[i as int]@ == name@,
            r is None ==> forall|i: int|
                0 <= i < self.names@.len() ==> (#[trigger] self.names@[i])@ != name@,
    {
        let n = self.names.len();
        let mut i: usize = 0;
        while i < n
            invariant
                i <= n,
                n == self.names@.len(),
                forall|k: int| 0 <= k < i ==> (#[trigger] self.names@[k])@ != name@,
            decreases n - i,
        {
            if str_eq(self.names[i].as_str(), name) {
                return Some(i);
            }
            i = i + 1;
        }
        None
    }

    /// No two nodes carry the same name.
    pub open spec fn names_distinct(self) -> bool {
        forall|a: int, b: int|
            0 <= a < b < self.names@.len() ==> (#[trigger] self.names@[a])@ != (
            #[trigger] self.names@[b])@
    }

    /// Whether a string names a direct dependency of the named node.
    pub open spec fn is_dep_name(self, name: Seq<char>, s: Seq<char>) -> bool {
        exists|i: int, j: int|
            0 <= i < self.names@.len() && (#[trigger] self.names@[i])@ == name && 0 <= j
                < self.deps@[i]@.len() && s == self.names@[(#[trigger] self.deps@[i]@[j]) as int]@
    }

    /// The names a check depends on directly; an unknown name has none.
    pub fn dependencies(&self, name: &str) -> (r: Vec<String>)
        requires
            self.wf(),
        ensures
            forall|k: int| 0 <= k < r@.len() ==> self.is_dep_name(name@, (#[trigger] r@[k])@),
            self.names_distinct() ==> forall|s: Seq<char>| #[trigger]
                self.is_dep_name(name@, s) ==> seq_has(views_of(r@), s),
    {
        let mut out: Vec<String> = Vec::new();
        match self.index_of(name) {
            None => {
                proof {
                    assert forall|s: Seq<char>| #[trigger]
                        self.is_dep_name(name@, s) implies seq_has(views_of(out@), s) by {
                        let (i2, j2) = choose|i2: int, j2: int|
                            0 <= i2 < self.names@.len() && (#[trigger] self.names@[i2])@ == name@
                                && 0 <= j2 < self.deps@[i2]@.len() && s == self.names@[(
                            #[trigger] self.deps@[i2]@[j2]) as int]@;
                        assert(false);
                    }
                }
                out
            },
            Some(i) => {
                let dn = self.deps[i].len();
                let mut j: usize = 0;
                while j < dn
                    invariant
                        self.wf(),
                        i < self.names@.len(),
                        self.names@[i as int]@ == name@,
                        j <= dn,
                        dn == self.deps@[i as int]@.len(),
                        forall|k: int|
                            0 <= k < out@.len() ==> self.is_dep_name(name@, (#[trigger] out@[k])@),
                        forall|jj: int|
                            0 <= jj < j ==> seq_has(
                                views_of(out@),
                                self.names@[(#[trigger] self.deps@[i as int]@[jj]) as int]@,
                            ),
                    decreases dn - j,
                {
                    let d = self.deps[i][j];
                    let ghost out0 = out@;
                    out.push(self.names[d].clone());
                    proof {
                        let k = out@.len() - 1;
                        assert((out@[k])@ == self.names@[self.deps@[i as int]@[j as int] as int]@);
                        assert(self.names@[i as int]@ == name@ && self.deps@[i as int]@[j as int]
                            == d);
                        assert(self.is_dep_name(name@, (out@[k])@));
                        assert(views_of(out@)[k] == (out@[k])@);
                        assert forall|jj: int|
                            0 <= jj < j + 1 implies seq_has(
                            views_of(out@),
                            self.names@[(#[trigger] self.deps@[i as int]@[jj]) as int]@,
                        ) by {
                            if jj < j {
                                let q = choose|q: int|
                                    0 <= q < views_of(out0).len() && views_of(out0)[q]
                                        == self.names@[self.deps@[i as int]@[jj] as int]@;
                                assert(views_of(out@)[q] == views_of(out0)[q]);
                            } else {
                                assert(views_of(out@)[k] == self.names@[self.deps@[i as
                                    int]@[jj] as int]@);
                            }
                        }
                    }
                    j = j + 1;
                }
                proof {
                    if self.names_distinct() {
                        assert forall|s: Seq<char>| #[trigger]
                            self.is_dep_name(name@, s) implies seq_has(views_of(out@), s) by {
                            let (i2, j2) = choose|i2: int, j2: int|
                                0 <= i2 < self.names@.len() && (#[trigger] self.names@[i2])@
                                    == name@ && 0 <= j2 < self.deps@[i2]@.len() && s
                                    == self.names@[(#[trigger] self.deps@[i2]@[j2]) as int]@;
                            assert(i2 == i);
                            assert(seq_has(
                                views_of(out@),
                                self.names@[self.deps@[i as int]@[j2] as int]@,
                            ));
                        }
                    }
                }
                out
            },
        }
    }

    /// Whether a string names a node that depends on the named node
    /// directly.
    pub open spec fn is_dependent_name(self, name: Seq<char>, s: Seq<char>) -> bool {
        exists|i: int, a: int, b: int|
            0 <= i < self.names@.len() && (#[trigger] self.names@[i])@ == name && 0 <= a
                < self.deps@.len() && 0 <= b < self.deps@[a]@.len() && (#[trigger] self.deps@[a]@[b])
                == i && s == self.names@[a]@
    }

    /// A dependency path of at most `k` steps leads from node `i` to
    /// node `j`.
    pub open spec fn reaches(self, i: int, j: int, k: nat) -> bool
        decreases k,
    {
        if i == j {
            true
        } else if k == 0 {
            false
        } else {
            exists|d: int|
                0 <= d < self.deps@[i]@.len() && self.reaches(
                    (#[trigger] self.deps@[i]@[d]) as int,
                    j,
                    (k - 1) as nat,
                )
        }
    }

    /// Some dependency path leads from node `i` to node `j`.
    pub open spec fn reachable_from(self, i: int, j: int) -> bool {
        exists|k: nat| self.reaches(i, j, k)
    }

    /// The flagged nodes are closed under dependency edges.
    pub open spec fn closed_flags(self, f: Seq<bool>) -> bool {
        forall|x: int, z: int|
            0 <= x < f.len() && f.len() == self.deps@.len() && f[x] && 0 <= z
                < self.deps@[x]@.len() && f[x] ==> f[(#[trigger] self.deps@[x]@[z]) as int]
    }

    /// The string names a node reachable over dependency edges from a
    /// node carrying the given name, other than that node itself.
    pub open spec fn transitive_entry_ok(self, name: Seq<char>, s: Seq<char>) -> bool {
        exists|i0: int, j: int|
            0 <= i0 < self.names@.len() && (#[trigger] self.names@[i0])@ == name && 0 <= j
                < self.names@.len() && s == (#[trigger] self.names@[j])@ && j != i0
                && self.reachable_from(i0, j)
    }

    /// The string names some reached node other than the starting one.
    pub open spec fn names_reached(self, reachable: Seq<bool>, start: int, s: Seq<char>) -> bool {
        exists|j: int|
            0 <= j < self.names@.len() && reachable[j] && j != start && s == (
            #[trigger] self.names@[j])@
    }

    /// Every name the check transitively depends on, the check itself
    /// included; an unknown name yields itself alone.
    pub fn transitive_dependencies(&self, name: &str) -> (r: Vec<String>)
        requires
            self.wf(),
        ensures
            r@.len() >= 1,
            r@[0]@ == name@,
            forall|k: int|
                1 <= k < r@.len() ==> self.transitive_entry_ok(name@, (#[trigger] r@[k])@),
            self.names_distinct() ==> forall|k: int, x: int, z: int|
                0 <= k < r@.len() && 0 <= x < self.names@.len() && (#[trigger] r@[k])@
                    == self.names@[x]@ && 0 <= z < self.deps@[x]@.len() ==> seq_has(
                    views_of(r@),
                    self.names@[(#[trigger] self.deps@[x]@[z]) as int]@,
                ),
    {
        let mut out: Vec<String> = Vec::new();
        let mut owned = String::new();
        owned.append(name);
        out.push(owned);
        let n = self.names.len();
        let start = match self.index_of(name) {
            None => {
                proof {
                    assert forall|k: int, x: int, z: int|
                        0 <= k < out@.len() && 0 <= x < self.names@.len() && (#[trigger] out@[k])@
                            == self.names@[x]@ && 0 <= z < self.deps@[x]@.len() implies seq_has(
                        views_of(out@),
                        self.names@[(#[trigger] self.deps@[x]@[z]) as int]@,
                    ) by {
                        assert((self.names@[x])@ != name@);
                        assert(false);
                    }
                }
                return out;
            },
            Some(i) => i,
        };
        // Saturate reachability: enough passes to reach a fixed point.
        let mut reachable = vec_falses(n);
        proof {
            lemma_placed_count_zero(reachable@);
        }
        let ghost zeros = reachable@;
        reachable.set(start, true);
        proof {
            lemma_placed_count_set(zeros, start as int);
            assert(self.reaches(start as int, start as int, 0));
            assert(self.reachable_from(start as int, start as int));
            assert forall|x: int|
                0 <= x < n && #[trigger] reachable@[x] implies self.reachable_from(
                start as int,
                x,
            ) by {
                if x != start as int {
                    assert(!zeros[x]);
                    assert(false);
                }
            }
        }
        let ghost g = *self;
        let mut round: usize = 0;
        while round < n
            invariant
                self.wf(),
                g == *self,
                n == self.names@.len(),
                reachable@.len() == n,
                start < n,
                reachable@[start as int],
                forall|x: int|
                    0 <= x < n && #[trigger] reachable@[x] ==> g.reachable_from(start as int, x),
                g.closed_flags(reachable@) || placed_count(reachable@) >= round + 1,
            decreases n - round,
        {
            let ghost pre = reachable@;
            let mut i: usize = 0;
            while i < n
                invariant
                    self.wf(),
                    g == *self,
                    n == self.names@.len(),
                    reachable@.len() == n,
                    start < n,
                    i <= n,
                    pre.len() == n,
                    reachable@[start as int],
                    forall|x: int| 0 <= x < n && #[trigger] pre[x] ==> reachable@[x],
                    forall|x: int|
                        0 <= x < n && #[trigger] reachable@[x] ==> g.reachable_from(
                            start as int,
                            x,
                        ),
                    forall|x: int, z: int|
                        0 <= x < i && #[trigger] pre[x] && 0 <= z < self.deps@[x]@.len()
                            ==> reachable@[(#[trigger] self.deps@[x]@[z]) as int],
                    g.closed_flags(pre) ==> reachable@ == pre,
                decreases n - i,
            {
                if reachable[i] {
                    let dn = self.deps[i].len();
                    let mut j: usize = 0;
                    while j < dn
                        invariant
                            self.wf(),
                            g == *self,
                            i < n,
                            n == self.names@.len(),
                            reachable@.len() == n,
                            start < n,
                            pre.len() == n,
                            dn == self.deps@[i as int]@.len(),
                            j <= dn,
                            reachable@[start as int],
                            reachable@[i as int],
                            forall|x: int| 0 <= x < n && #[trigger] pre[x] ==> reachable@[x],
                            forall|x: int|
                                0 <= x < n && #[trigger] reachable@[x] ==> g.reachable_from(
                                    start as int,
                                    x,
                                ),
                            forall|x: int, z: int|
                                0 <= x < i && #[trigger] pre[x] && 0 <= z < self.deps@[x]@.len()
                                    ==> reachable@[(#[trigger] self.deps@[x]@[z]) as int],
                            forall|z: int|
                                0 <= z < j ==> reachable@[(
                                #[trigger] self.deps@[i as int]@[z]) as int],
                            g.closed_flags(pre) ==> reachable@ == pre,
                        decreases dn - j,
                    {
                        let d = self.deps[i][j];
                        let ghost before = reachable@;
                        proof {
                            let kk = choose|kk: nat| g.reaches(start as int, i as int, kk);
                            lemma_reaches_extend(g, start as int, i as int, kk, j as int);
                        }
                        reachable.set(d, true);
                        proof {
                            if g.closed_flags(pre) {
                                assert(before == pre);
                                assert(pre[i as int] && pre[d as int]);
                                assert(reachable@ =~= pre);
                            }
                        }
                        j = j + 1;
                    }
                }
                i = i + 1;
            }
            proof {
                if reachable@ =~= pre {
                    assert forall|x: int, z: int|
                        0 <= x < reachable@.len() && reachable@.len() == g.deps@.len()
                            && reachable@[x] && 0 <= z < g.deps@[x]@.len() && reachable@[x] implies reachable@[(
                        #[trigger] g.deps@[x]@[z]) as int] by {
                        assert(pre[x]);
                    }
                    assert(g.closed_flags(reachable@));
                } else {
                    assert(!(g.closed_flags(pre)));
                    assert(placed_count(pre) >= round + 1);
                    assert(exists|x: int| 0 <= x < pre.len() && !pre[x] && #[trigger] reachable@[x])
                        by {
                        assert(!(reachable@ =~= pre));
                        let x = choose|x: int|
                            0 <= x < pre.len() && #[trigger] pre[x] != reachable@[x];
                        assert(!pre[x] && reachable@[x]);
                    }
                    lemma_count_monotone(pre, reachable@);
                    assert(placed_count(reachable@) >= round + 2);
                }
            }
            round = round + 1;
        }
        proof {
            if !g.closed_flags(reachable@) {
                lemma_placed_count_bound(reachable@);
                assert(false);
            }
        }
        // Collect every reached name besides the one asked for.
        let ghost out0 = out@;
        let mut i: usize = 0;
        while i < n
            invariant
                self.wf(),
                g == *self,
                n == self.names@.len(),
                reachable@.len() == n,
                start < n,
                i <= n,
                out@.len() >= 1,
                out@[0] == out0[0],
                self.names@[start as int]@ == name@,
                forall|x: int|
                    0 <= x < n && #[trigger] reachable@[x] ==> g.reachable_from(start as int, x),
                forall|x: int|
                    0 <= x < i && #[trigger] reachable@[x] && x != start ==> seq_has(
                        views_of(out@),
                        self.names@[x]@,
                    ),
                forall|k: int|
                    1 <= k < out@.len() ==> self.names_reached(
                        reachable@,
                        start as int,
                        (#[trigger] out@[k])@,
                    ),
            decreases n - i,
        {
            if reachable[i] && i != start {
                let ghost outp = out@;
                out.push(self.names[i].clone());
                proof {
                    let k = out@.len() - 1;
                    assert(views_of(out@)[k] == (out@[k])@);
                    assert((out@[k])@ == self.names@[i as int]@);
                    assert forall|x: int|
                        0 <= x < i + 1 && #[trigger] reachable@[x] && x != start implies seq_has(
                        views_of(out@),
                        self.names@[x]@,
                    ) by {
                        if x < i {
                            let q = choose|q: int|
                                0 <= q < views_of(outp).len() && views_of(outp)[q]
                                    == self.names@[x]@;
                            assert(views_of(out@)[q] == views_of(outp)[q]);
                        } else {
                            assert(views_of(out@)[k] == self.names@[x]@);
                        }
                    }
                    assert forall|kk: int| 1 <= kk < out@.len() implies self.names_reached(
                        reachable@,
                        start as int,
                        (#[trigger] out@[kk])@,
                    ) by {
                        if kk < outp.len() {
                            assert(self.names_reached(reachable@, start as int, (outp[kk])@));
                            assert(out@[kk] == outp[kk]);
                        } else {
                            assert(reachable@[i as int] && i as int != start as int && (out@[kk])@
                                == (#[trigger] self.names@[i as int])@);
                            assert(self.names_reached(reachable@, start as int, (out@[kk])@));
                        }
                    }
                }
            }
            i = i + 1;
        }
        proof {
            assert(views_of(out@)[0] == (out@[0])@);
            assert((out@[0])@ == name@);
            if self.names_distinct() {
                assert forall|k: int, x: int, z: int|
                    0 <= k < out@.len() && 0 <= x < self.names@.len() && (#[trigger] out@[k])@
                        == self.names@[x]@ && 0 <= z < self.deps@[x]@.len() implies seq_has(
                    views_of(out@),
                    self.names@[(#[trigger] self.deps@[x]@[z]) as int]@,
                ) by {
                    if k == 0 {
                        assert(self.names@[x]@ == name@ && self.names@[start as int]@ == name@);
                        assert(x == start);
                    } else {
                        assert(self.names_reached(reachable@, start as int, (out@[k])@));
                        let j = choose|j: int|
                            0 <= j < self.names@.len() && reachable@[j] && j != start as int && (
                            out@[k])@ == (#[trigger] self.names@[j])@;
                        assert(x == j);
                    }
                    assert(reachable@[x]);
                    assert(reachable@[(self.deps@[x]@[z]) as int]);
                    let t = (self.deps@[x]@[z]) as int;
                    if t == start {
                        assert(views_of(out@)[0] == self.names@[start as int]@) by {
                            assert(self.names@[start as int]@ == name@);
                        }
                        assert(seq_has(views_of(out@), self.names@[t]@));
                    } else {
                        assert(seq_has(views_of(out@), self.names@[t]@));
                    }
                }
            }
            assert forall|k: int| 1 <= k < out@.len() implies self.transitive_entry_ok(
                name@,
                (#[trigger] out@[k])@,
            ) by {
                assert(self.names_reached(reachable@, start as int, (out@[k])@));
                let j = choose|j: int|
                    0 <= j < self.names@.len() && reachable@[j] && j != start as int && (
                    out@[k])@ == (#[trigger] self.names@[j])@;
                assert(0 <= start < self.names@.len() && (#[trigger] self.names@[start as int])@
                    == name@ && (out@[k])@ == (#[trigger] self.names@[j])@ && j != start
                    && self.reachable_from(start as int, j));
                assert(self.transitive_entry_ok(name@, (out@[k])@));
            }
        }
        out
    }

    /// The names that depend on a check directly; an unknown name has
    /// none.
    pub fn dependents(&self, name: &str) -> (r: Vec<String>)
        requires
            self.wf(),
        ensures
            forall|k: int| 0 <= k < r@.len() ==> self.is_dependent_name(name@, (#[trigger] r@[k])@),
            self.names_distinct() ==> forall|s: Seq<char>| #[trigger]
                self.is_dependent_name(name@, s) ==> seq_has(views_of(r@), s),
    {
        let mut out: Vec<String> = Vec::new();
        match self.index_of(name) {
            None => {
                proof {
                    assert forall|s: Seq<char>| #[trigger]
                        self.is_dependent_name(name@, s) implies seq_has(views_of(out@), s) by {
                        let (i2, a2, b2) = choose|i2: int, a2: int, b2: int|
                            0 <= i2 < self.names@.len() && (#[trigger] self.names@[i2])@ == name@
                                && 0 <= a2 < self.deps@.len() && 0 <= b2 < self.deps@[a2]@.len()
                                && (#[trigger] self.deps@[a2]@[b2]) == i2 && s == self.names@[a2]@;
                        assert(false);
                    }
                }
                out
            },
            Some(i) => {
                let n = self.deps.len();
                let mut a: usize = 0;
                while a < n
                    invariant
                        self.wf(),
                        i < self.names@.len(),
                        self.names@[i as int]@ == name@,
                        a <= n,
                        n == self.deps@.len(),
                        forall|k: int|
                            0 <= k < out@.len() ==> self.is_dependent_name(
                                name@,
                                (#[trigger] out@[k])@,
                            ),
                        forall|a2: int, b2: int|
                            0 <= a2 < a && 0 <= b2 < self.deps@[a2]@.len() && (
                            #[trigger] self.deps@[a2]@[b2]) == i ==> seq_has(
                                views_of(out@),
                                self.names@[a2]@,
                            ),
                    decreases n - a,
                {
                    let dn = self.deps[a].len();
                    let mut b: usize = 0;
                    let mut found: bool = false;
                    while b < dn
                        invariant
                            b <= dn,
                            a < n,
                            n == self.deps@.len(),
                            dn == self.deps@[a as int]@.len(),
                            found == exists|z: int|
                                0 <= z < b && (#[trigger] self.deps@[a as int]@[z]) == i,
                        decreases dn - b,
                    {
                        if self.deps[a][b] == i {
                            found = true;
                            proof {
                                assert(self.deps@[a as int]@[b as int] == i);
                            }
                        }
                        b = b + 1;
                    }
                    let ghost out0 = out@;
                    if found {
                        out.push(self.names[a].clone());
                        proof {
                            let k = out@.len() - 1;
                            assert((out@[k])@ == self.names@[a as int]@);
                            let z = choose|z: int|
                                0 <= z < dn && (#[trigger] self.deps@[a as int]@[z]) == i;
                            assert(self.names@[i as int]@ == name@ && self.deps@[a as int]@[z]
                                == i as int);
                            assert(self.is_dependent_name(name@, (out@[k])@));
                            assert(views_of(out@)[k] == (out@[k])@);
                        }
                    }
                    proof {
                        assert forall|a2: int, b2: int|
                            0 <= a2 < a + 1 && 0 <= b2 < self.deps@[a2]@.len() && (
                            #[trigger] self.deps@[a2]@[b2]) == i implies seq_has(
                            views_of(out@),
                            self.names@[a2]@,
                        ) by {
                            if a2 < a {
                                let q = choose|q: int|
                                    0 <= q < views_of(out0).len() && views_of(out0)[q]
                                        == self.names@[a2]@;
                                assert(views_of(out@)[q] == views_of(out0)[q]);
                            } else {
                                assert(found);
                                assert(views_of(out@)[out@.len() - 1] == self.names@[a as int]@);
                            }
                        }
                    }
                    a = a + 1;
                }
                proof {
                    if self.names_distinct() {
                        assert forall|s: Seq<char>| #[trigger]
                            self.is_dependent_name(name@, s) implies seq_has(views_of(out@), s) by {
                            let (i2, a2, b2) = choose|i2: int, a2: int, b2: int|
                                0 <= i2 < self.names@.len() && (#[trigger] self.names@[i2])@
                                    == name@ && 0 <= a2 < self.deps@.len() && 0 <= b2
                                    < self.deps@[a2]@.len() && (#[trigger] self.deps@[a2]@[b2])
                                    == i2 && s == self.names@[a2]@;
                            assert(i2 == i);
                            assert(seq_has(views_of(out@), self.names@[a2]@));
                        }
                    }
                }
                out
            },
        }
    }
}

/// A path may grow by one dependency edge at its far end.
proof fn lemma_reaches_extend(g: DependencyGraph, i: int, j: int, k: nat, z: int)
    requires
        g.reaches(i, j, k),
        0 <= j < g.deps@.len(),
        0 <= z < g.deps@[j]@.len(),
    ensures
        g.reachable_from(i, g.deps@[j]@[z] as int),
    decreases k,
{
    let t = g.deps@[j]@[z] as int;
    if i == j {
        assert(g.reaches(t, t, 0));
        assert(g.reaches(i, t, 1));
        assert(g.reachable_from(i, t));
    } else {
        let d = choose|d: int|
            0 <= d < g.deps@[i]@.len() && g.reaches(
                (#[trigger] g.deps@[i]@[d]) as int,
                j,
                (k - 1) as nat,
            );
        lemma_reaches_extend(g, g.deps@[i]@[d] as int, j, (k - 1) as nat, z);
        let k2 = choose|k2: nat| g.reaches(g.deps@[i]@[d] as int, t, k2);
        assert(g.reaches(i, t, k2 + 1));
        assert(g.reachable_from(i, t));
    }
}

/// Pointwise growth of flags never lowers the count, and a strictly new
/// flag raises it.
proof fn lemma_count_monotone(a: Seq<bool>, b: Seq<bool>)
    requires
        a.len() == b.len(),
        forall|x: int| 0 <= x < a.len() && a[x] ==> #[trigger] b[x],
    ensures
        placed_count(a) <= placed_count(b),
        (exists|x: int| 0 <= x < a.len() && !a[x] && #[trigger] b[x]) ==> placed_count(a)
            < placed_count(b),
    decreases a.len(),
{
    if a.len() > 0 {
        assert forall|x: int| 0 <= x < a.drop_last().len() && a.drop_last()[x] implies #[trigger] b.drop_last()[x] by {
            assert(a[x]);
            assert(b[x]);
        }
        lemma_count_monotone(a.drop_last(), b.drop_last());
        if a.last() {
            assert(b.last());
        }
        if exists|x: int| 0 <= x < a.len() && !a[x] && #[trigger] b[x] {
            let x = choose|x: int| 0 <= x < a.len() && !a[x] && #[trigger] b[x];
            if x == a.len() - 1 {
                assert(!a.last() && b.last());
            } else {
                assert(!a.drop_last()[x] && b.drop_last()[x]);
            }
        }
    }
}

/// The name the cycle error carries: a check that lies on a dependency
/// cycle, found by walking unplaced dependencies, and a member of the
/// self-blocking rest.
fn cycle_error_name(
    vs: Ghost<Seq<Verification>>,
    names: &Vec<String>,
    deps: &Vec<Vec<usize>>,
    placed: &Vec<bool>,
    start: usize,
) -> (r: String)
    requires
        vs@.len() == names@.len(),
        deps@.len() == names@.len(),
        placed@.len() == names@.len(),
        start < names@.len(),
        !placed@[start as int],
        forall|k: int| 0 <= k < names@.len() ==> (#[trigger] names@[k])@ == vs@[k].name@,
        forall|a: int, j: int|
            0 <= a < names@.len() && 0 <= j < deps@[a]@.len() ==> (#[trigger] deps@[a]@[j])
                < names@.len(),
        edges_name_deps(vs@, names@, deps@),
        unplaced_have_unplaced_deps(placed@, deps@, names@.len() as int),
    ensures
        blocked_set_with(vs@, r@),
        cycle_named(vs@, r@),
{
    proof {
        lemma_unplaced_members(vs@, names@, deps@, placed@, names@.len() as int);
    }
    let m = find_cycle_member(vs, names, deps, placed, start);
    proof {
        lemma_blocked_assemble(vs@, placed@, m as int);
        assert(cycle_named(vs@, names@[m as int]@));
    }
    names[m].clone()
}

/// Walk unplaced dependencies from an unplaced start until a node
/// repeats: the repeating node lies on a dependency cycle, since the walk
/// from its first visit closes back on it.
#[verifier::rlimit(100)]
#[verifier::spinoff_prover]
fn find_cycle_member(
    vs: Ghost<Seq<Verification>>,
    names: &Vec<String>,
    deps: &Vec<Vec<usize>>,
    placed: &Vec<bool>,
    start: usize,
) -> (r: usize)
    requires
        vs@.len() == names@.len(),
        deps@.len() == names@.len(),
        placed@.len() == names@.len(),
        start < names@.len(),
        !placed@[start as int],
        forall|k: int| 0 <= k < names@.len() ==> (#[trigger] names@[k])@ == vs@[k].name@,
        forall|a: int, j: int|
            0 <= a < names@.len() && 0 <= j < deps@[a]@.len() ==> (#[trigger] deps@[a]@[j])
                < names@.len(),
        edges_name_deps(vs@, names@, deps@),
        unplaced_have_unplaced_deps(placed@, deps@, names@.len() as int),
    ensures
        r < names@.len(),
        !placed@[r as int],
        on_dependency_cycle(vs@, r as int),
{
    let n = names.len();
    let mut visited = vec_falses(n);
    let mut cur: usize = start;
    let ghost mut path: Seq<int> = seq![start as int];
    proof {
        lemma_placed_count_zero(visited@);
    }
    loop
        invariant
            n == names@.len(),
            vs@.len() == n,
            deps@.len() == n,
            placed@.len() == n,
            visited@.len() == n,
            forall|k: int| 0 <= k < n ==> (#[trigger] names@[k])@ == vs@[k].name@,
            forall|a: int, j: int|
                0 <= a < n && 0 <= j < deps@[a]@.len() ==> (#[trigger] deps@[a]@[j]) < n,
            edges_name_deps(vs@, names@, deps@),
            unplaced_have_unplaced_deps(placed@, deps@, n as int),
            cur < n,
            !placed@[cur as int],
            !visited@[cur as int],
            path.len() >= 1,
            path[path.len() - 1] == cur as int,
            forall|k: int|
                0 <= k < path.len() ==> 0 <= #[trigger] path[k] < n && !placed@[path[k]],
            forall|k: int|
                0 <= k < path.len() - 1 ==> check_depends_on(vs@, #[trigger] path[k], path[k + 1]),
            forall|x: int|
                0 <= x < n && #[trigger] visited@[x] ==> exists|k: int|
                    0 <= k < path.len() - 1 && path[k] == x,
            placed_count(visited@) <= n,
        decreases n - placed_count(visited@),
    {
        proof {
            lemma_placed_count_set(visited@, cur as int);
        }
        let ghost visited0 = visited@;
        visited.set(cur, true);
        proof {
            lemma_placed_count_bound(visited@);
        }
        // Find an unplaced dependency; one exists because every unplaced
        // check depends on an unplaced one.
        let dn = deps[cur].len();
        let mut z: usize = 0;
        let mut next: usize = cur;
        let mut found = false;
        while !found && z < dn
            invariant
                cur < n,
                deps@.len() == n,
                placed@.len() == n,
                dn == deps@[cur as int]@.len(),
                z <= dn,
                forall|a: int, j: int|
                    0 <= a < n && 0 <= j < deps@[a]@.len() ==> (#[trigger] deps@[a]@[j]) < n,
                !found ==> forall|y: int|
                    0 <= y < z ==> placed@[(#[trigger] deps@[cur as int]@[y]) as int],
                found ==> next < n && !placed@[next as int] && exists|y: int|
                    0 <= y < deps@[cur as int]@.len() && (#[trigger] deps@[cur as int]@[y])
                        == next,
            decreases dn - z,
        {
            if !placed[deps[cur][z]] {
                next = deps[cur][z];
                found = true;
                proof {
                    assert(deps@[cur as int]@[z as int] == next as int);
                }
            }
            z = z + 1;
        }
        proof {
            if !found {
                let j = choose|j: int|
                    0 <= j < deps@[cur as int]@.len() && !placed@[(
                    #[trigger] deps@[cur as int]@[j]) as int];
                assert(placed@[deps@[cur as int]@[j] as int]);
                assert(false);
            }
            assert(check_depends_on(vs@, cur as int, next as int)) by {
                reveal(check_depends_on);
                assert(edges_from_deps(vs@[cur as int].depends_on@, names@, deps@[cur as int]@));
                let y = choose|y: int|
                    0 <= y < deps@[cur as int]@.len() && (#[trigger] deps@[cur as int]@[y])
                        == next;
                let k = choose|k: int|
                    0 <= k < vs@[cur as int].depends_on@.len() && (
                    #[trigger] vs@[cur as int].depends_on@[k])@ == names@[(deps@[cur as
                    int]@[y]) as int]@;
                assert(vs@[cur as int].depends_on@[k]@ == vs@[next as int].name@);
            }
        }
        if visited[next] {
            proof {
                let full = path;
                assert(check_depends_on(vs@, full[full.len() - 1], next as int));
                let idx: int = if next == cur {
                    full.len() - 1
                } else {
                    assert(visited0[next as int]);
                    choose|k: int| 0 <= k < full.len() - 1 && full[k] == next as int
                };
                assert(0 <= idx < full.len() && full[idx] == next as int);
                reveal(on_dependency_cycle);
                if idx == full.len() - 1 {
                    assert(chain_reaches(vs@, next as int, next as int, 0));
                    assert(on_dependency_cycle(vs@, next as int));
                } else {
                    assert(check_depends_on(vs@, next as int, full[idx + 1]));
                    lemma_chain_from_path(vs@, full, idx + 1, next as int);
                    let kx = choose|kx: nat| #[trigger]
                        chain_reaches(vs@, full[idx + 1], next as int, kx);
                    assert(on_dependency_cycle(vs@, next as int));
                }
            }
            return next;
        }
        proof {
            let path0 = path;
            path = path.push(next as int);
            assert(path[path.len() - 1] == next as int);
            assert forall|k: int|
                0 <= k < path.len() - 1 implies check_depends_on(
                vs@,
                #[trigger] path[k],
                path[k + 1],
            ) by {
                if k < path0.len() - 1 {
                    assert(path[k] == path0[k] && path[k + 1] == path0[k + 1]);
                    assert(check_depends_on(vs@, path0[k], path0[k + 1]));
                } else {
                    assert(path[k] == cur as int && path[k + 1] == next as int);
                }
            }
            assert forall|x: int|
                0 <= x < n && #[trigger] visited@[x] implies exists|k: int|
                0 <= k < path.len() - 1 && path[k] == x by {
                if x == cur as int {
                    assert(path[path0.len() - 1] == x);
                } else {
                    assert(visited0[x]);
                    let k = choose|k: int| 0 <= k < path0.len() - 1 && path0[k] == x;
                    assert(path[k] == x);
                }
            }
        }
        cur = next;
    }
}

/// The first unset flag, if any.
fn first_unset(flags: &Vec<bool>) -> (r: Option<usize>)
    ensures
        r matches Some(i) ==> i < flags@.len() && !flags@[i as int],
        r is None ==> forall|k: int| 0 <= k < flags@.len() ==> #[trigger] flags@[k],
{
    let n = flags.len();
    let mut i: usize = 0;
    while i < n
        invariant
            i <= n,
            n == flags@.len(),
            forall|k: int| 0 <= k < i ==> #[trigger] flags@[k],
        decreases n - i,
    {
        if !flags[i] {
            return Some(i);
        }
        i = i + 1;
    }
    None
}

/// A vector of `n` false flags.
fn vec_falses(n: usize) -> (r: Vec<bool>)
    ensures
        r@.len() == n,
        forall|i: int| 0 <= i < n ==> !(#[trigger] r@[i]),
{
    let mut r: Vec<bool> = Vec::new();
    let mut i: usize = 0;
    while i < n
        invariant
            i <= n,
            r@.len() == i,
            forall|k: int| 0 <= k < i ==> !(#[trigger] r@[k]),
        decreases n - i,
    {
        r.push(false);
        i = i + 1;
    }
    r
}

/// Compute the waves: repeatedly take every unplaced node whose
/// dependencies are all placed, until none is left.  Also returns, for
/// each node, whether it was placed; an unplaced node has an unplaced
/// dependency.
#[verifier::rlimit(60)]
fn compute_waves(n: usize, deps: &Vec<Vec<usize>>) -> (r: (Vec<Vec<usize>>, Vec<bool>))
    requires
        deps@.len() == n,
        forall|i: int, j: int|
            0 <= i < deps@.len() && 0 <= j < deps@[i]@.len() ==> (#[trigger] deps@[i]@[j]) < n,
    ensures
        r.1@.len() == n,
        forall|x: int|
            0 <= x < n ==> #[trigger] r.1@[x] == in_waves(r.0@, x),
        forall|t: int, p: int|
            0 <= t < r.0@.len() && 0 <= p < r.0@[t]@.len() ==> (#[trigger] r.0@[t]@[p]) < n,
        forall|t: int, p: int, u: int, q: int|
            0 <= t < r.0@.len() && 0 <= p < r.0@[t]@.len() && 0 <= u < r.0@.len() && 0 <= q
                < r.0@[u]@.len() && (t != u || p != q) ==> (#[trigger] r.0@[t]@[p]) != (
            #[trigger] r.0@[u]@[q]),
        forall|t: int, p: int, j: int|
            0 <= t < r.0@.len() && 0 <= p < r.0@[t]@.len() && 0 <= j < deps@[(
                #[trigger] r.0@[t]@[p]) as int]@.len() ==> in_waves(
                r.0@.take(t),
                (#[trigger] deps@[r.0@[t]@[p] as int]@[j]) as int,
            ),
        stuck_have_stuck_deps(r.0@, deps@, n as int),
        forall|t: int| 0 <= t < r.0@.len() ==> (#[trigger] r.0@[t])@.len() > 0,
        waves_greedy(r.0@, deps@, n as int),
{
    let mut out: Vec<Vec<usize>> = Vec::new();
    let mut placed: Vec<bool> = vec_falses(n);
    let mut remaining: usize = n;
    proof {
        lemma_placed_count_zero(placed@);
    }
    loop
        invariant
            deps@.len() == n,
            forall|i: int, j: int|
                0 <= i < deps@.len() && 0 <= j < deps@[i]@.len() ==> (#[trigger] deps@[i]@[j]) < n,
            placed@.len() == n,
            remaining == n - placed_count(placed@),
            0 <= placed_count(placed@) <= n,
            forall|x: int| 0 <= x < n ==> #[trigger] placed@[x] == in_waves(out@, x),
            forall|t: int, p: int|
                0 <= t < out@.len() && 0 <= p < out@[t]@.len() ==> (#[trigger] out@[t]@[p]) < n,
            forall|t: int, p: int, u: int, q: int|
                0 <= t < out@.len() && 0 <= p < out@[t]@.len() && 0 <= u < out@.len() && 0 <= q
                    < out@[u]@.len() && (t != u || p != q) ==> (#[trigger] out@[t]@[p]) != (
                #[trigger] out@[u]@[q]),
            forall|t: int, p: int, j: int|
                0 <= t < out@.len() && 0 <= p < out@[t]@.len() && 0 <= j < deps@[(
                    #[trigger] out@[t]@[p]) as int]@.len() ==> in_waves(
                    out@.take(t),
                    (#[trigger] deps@[out@[t]@[p] as int]@[j]) as int,
                ),
            forall|t: int| 0 <= t < out@.len() ==> (#[trigger] out@[t])@.len() > 0,
            waves_greedy(out@, deps@, n as int),
        decreases remaining,
    {
        let ghost out0 = out@;
        let ghost placed0 = placed@;
        // Collect every unplaced node whose dependencies are all placed,
        // against the snapshot taken before this wave.
        let mut wave: Vec<usize> = Vec::new();
        let mut i: usize = 0;
        while i < n
            invariant
                deps@.len() == n,
                forall|a: int, j: int|
                    0 <= a < deps@.len() && 0 <= j < deps@[a]@.len() ==> (#[trigger] deps@[a]@[j])
                        < n,
                placed@ == placed0,
                placed@.len() == n,
                i <= n,
                forall|k: int|
                    0 <= k < wave@.len() ==> (#[trigger] wave@[k]) < n && !placed0[wave@[k] as int],
                forall|k: int, l: int|
                    0 <= k < l < wave@.len() ==> (#[trigger] wave@[k]) < (#[trigger] wave@[l]),
                forall|k: int|
                    0 <= k < wave@.len() ==> forall|j: int|
                        0 <= j < deps@[(#[trigger] wave@[k]) as int]@.len() ==> placed0[(
                        #[trigger] deps@[wave@[k] as int]@[j]) as int],
                forall|k: int| 0 <= k < wave@.len() ==> (#[trigger] wave@[k]) < i,
                forall|x: int|
                    0 <= x < i && !placed0[x] && !in_wave(wave@, x) ==> exists|j: int|
                        0 <= j < deps@[x]@.len() && !placed0[(#[trigger] deps@[x]@[j]) as int],
            decreases n - i,
        {
            if !placed[i] {
                let dn = deps[i].len();
                let mut j: usize = 0;
                let mut all_placed: bool = true;
                while j < dn
                    invariant
                        j <= dn,
                        i < n,
                        deps@.len() == n,
                        dn == deps@[i as int]@.len(),
                        placed@ == placed0,
                        placed@.len() == n,
                        forall|a: int, b: int|
                            0 <= a < deps@.len() && 0 <= b < deps@[a]@.len() ==> (
                            #[trigger] deps@[a]@[b]) < n,
                        all_placed ==> forall|b: int|
                            0 <= b < j ==> placed0[(#[trigger] deps@[i as int]@[b]) as int],
                        !all_placed ==> exists|b: int|
                            0 <= b < dn && !placed0[(#[trigger] deps@[i as int]@[b]) as int],
                    decreases dn - j,
                {
                    if !placed[deps[i][j]] {
                        all_placed = false;
                    }
                    j = j + 1;
                }
                if all_placed {
                    let ghost wave0 = wave@;
                    wave.push(i);
                    proof {
                        assert forall|x: int|
                            0 <= x < i + 1 && !placed0[x] && !in_wave(wave@, x) implies exists|
                            j: int,
                        |
                            0 <= j < deps@[x]@.len() && !placed0[(
                            #[trigger] deps@[x]@[j]) as int] by {
                            if x < i {
                                assert(!in_wave(wave0, x)) by {
                                    if in_wave(wave0, x) {
                                        let p = choose|p: int|
                                            0 <= p < wave0.len() && (#[trigger] wave0[p]) == x;
                                        assert(wave@[p] == x);
                                    }
                                }
                            } else {
                                assert(wave@[wave@.len() - 1] == x);
                            }
                        }
                    }
                } else {
                    proof {
                        assert forall|x: int|
                            0 <= x < i + 1 && !placed0[x] && !in_wave(wave@, x) implies exists|
                            j: int,
                        |
                            0 <= j < deps@[x]@.len() && !placed0[(
                            #[trigger] deps@[x]@[j]) as int] by {}
                    }
                }
            }
            i = i + 1;
        }
        if wave.len() == 0 {
            proof {
                assert forall|x: int| #![trigger in_waves(out@, x)]
                    0 <= x < n && !in_waves(out@, x) implies (exists|j: int|
                    0 <= j < deps@[x]@.len() && !in_waves(
                        out@,
                        (#[trigger] deps@[x]@[j]) as int,
                    )) by {
                    assert(!placed0[x]);
                    assert(!in_wave(wave@, x));
                    let j = choose|j: int|
                        0 <= j < deps@[x]@.len() && !placed0[(#[trigger] deps@[x]@[j]) as int];
                    assert(deps@[x]@[j] < n);
                    assert(!in_waves(out@, deps@[x]@[j] as int));
                    assert(0 <= j < deps@[x]@.len() && !in_waves(out@, (deps@[x]@[j]) as int));
                }
                assert(stuck_have_stuck_deps(out@, deps@, n as int));
                assert forall|x: int| #![trigger placed@[x]]
                    0 <= x < n && !placed@[x] implies exists|j: int|
                    0 <= j < deps@[x]@.len() && !placed@[(#[trigger] deps@[x]@[j]) as int] by {
                    assert(!in_waves(out@, x));
                    let j = choose|j: int|
                        0 <= j < deps@[x]@.len() && !in_waves(
                            out@,
                            (#[trigger] deps@[x]@[j]) as int,
                        );
                    assert(deps@[x]@[j] < n);
                    assert(!placed@[deps@[x]@[j] as int]);
                }
            }
            return (out, placed);
        }
        // Mark the wave placed and append it.
        let wl = wave.len();
        let mut p: usize = 0;
        while p < wl
            invariant
                p <= wl,
                wl == wave@.len(),
                deps@.len() == n,
                placed@.len() == n,
                forall|k: int|
                    0 <= k < wave@.len() ==> (#[trigger] wave@[k]) < n && !placed0[wave@[k] as int],
                forall|k: int, l: int|
                    0 <= k < l < wave@.len() ==> (#[trigger] wave@[k]) < (#[trigger] wave@[l]),
                forall|x: int|
                    0 <= x < n ==> #[trigger] placed@[x] == (placed0[x] || exists|k: int|
                        0 <= k < p && (#[trigger] wave@[k]) == x),
                placed_count(placed@) == placed_count(placed0) + p,
            decreases wl - p,
        {
            let node = wave[p];
            proof {
                assert(!placed@[node as int]) by {
                    if placed@[node as int] {
                        if placed0[node as int] {
                            assert(wave@[p as int] == node as int);
                            assert(false);
                        } else {
                            let k = choose|k: int| 0 <= k < p && (#[trigger] wave@[k]) == node as int;
                            assert(wave@[k] == wave@[p as int]);
                            assert(false);
                        }
                    }
                }
                lemma_placed_count_set(placed@, node as int);
            }
            placed.set(node, true);
            proof {
                assert forall|x: int|
                    0 <= x < n implies #[trigger] placed@[x] == (placed0[x] || exists|k: int|
                    0 <= k < p + 1 && (#[trigger] wave@[k]) == x) by {
                    if x == node as int {
                        assert(wave@[p as int] == x);
                    }
                }
            }
            p = p + 1;
        }
        proof {
            lemma_placed_count_bound(placed@);
        }
        remaining = remaining - wl;
        out.push(wave);
        proof {
            let out1 = out@;
            let t_new = out1.len() - 1;
            assert(out1.take(t_new) =~= out0);
            assert forall|t: int, x: int|
                0 <= t < out1.len() && 0 <= x < n && !(#[trigger] in_waves(out1.take(t), x)) && (
                forall|j: int|
                    0 <= j < deps@[x]@.len() ==> in_waves(
                        out1.take(t),
                        (#[trigger] deps@[x]@[j]) as int,
                    )) implies in_wave(out1[t]@, x) by {
                if t < t_new {
                    assert(out1.take(t) =~= out0.take(t));
                    assert(!in_waves(out0.take(t), x));
                    assert(in_wave(out0[t]@, x));
                    assert(out1[t] == out0[t]);
                } else {
                    assert(!in_waves(out0, x));
                    assert(!placed0[x]);
                    assert forall|j: int|
                        0 <= j < deps@[x]@.len() implies placed0[(
                        #[trigger] deps@[x]@[j]) as int] by {
                        assert(in_waves(out1.take(t), deps@[x]@[j] as int));
                        assert(in_waves(out0, deps@[x]@[j] as int));
                    }
                    if !in_wave(wave@, x) {
                        let j = choose|j: int|
                            0 <= j < deps@[x]@.len() && !placed0[(
                            #[trigger] deps@[x]@[j]) as int];
                        assert(false);
                    }
                    assert(out1[t]@ == wave@);
                }
            }
            assert forall|x: int| 0 <= x < n implies #[trigger] placed@[x] == in_waves(
                out1,
                x,
            ) by {
                if placed@[x] {
                    if placed0[x] {
                        let (u, q) = choose|u: int, q: int|
                            0 <= u < out0.len() && 0 <= q < out0[u].len() && (#[trigger] out0[u][q])
                                == x;
                        assert(out1[u][q] == x);
                    } else {
                        let k = choose|k: int| 0 <= k < wl && (#[trigger] wave@[k]) == x;
                        assert(out1[t_new][k] == x);
                    }
                }
                if in_waves(out1, x) {
                    let (u, q) = choose|u: int, q: int|
                        0 <= u < out1.len() && 0 <= q < out1[u].len() && (#[trigger] out1[u][q])
                            == x;
                    if u < t_new {
                        assert(out0[u][q] == x);
                    } else {
                        assert(wave@[q] == x);
                    }
                }
            }
            assert forall|t: int, p2: int, u: int, q: int|
                0 <= t < out1.len() && 0 <= p2 < out1[t].len() && 0 <= u < out1.len() && 0 <= q
                    < out1[u].len() && (t != u || p2 != q) implies (#[trigger] out1[t][p2]) != (
            #[trigger] out1[u][q]) by {
                if t < t_new && u < t_new {
                    assert(out0[t][p2] == out1[t][p2]);
                    assert(out0[u][q] == out1[u][q]);
                } else if t == t_new && u == t_new {
                    assert(out1[t][p2] == wave@[p2] && out1[u][q] == wave@[q]);
                } else if t == t_new && u < t_new {
                    assert(out1[t][p2] == wave@[p2]);
                    assert(!placed0[wave@[p2] as int]);
                    assert(out0[u][q] == out1[u][q]);
                    assert(placed0[out0[u][q] as int]) by {
                        assert(in_waves(out0, out0[u][q] as int)) by {
                            assert(out0[u][q] == out0[u][q]);
                        }
                    }
                } else if t < t_new && u == t_new {
                    assert(out1[u][q] == wave@[q]);
                    assert(!placed0[wave@[q] as int]);
                    assert(out0[t][p2] == out1[t][p2]);
                    assert(placed0[out0[t][p2] as int]) by {
                        assert(in_waves(out0, out0[t][p2] as int)) by {
                            assert(out0[t][p2] == out0[t][p2]);
                        }
                    }
                }
            }
            assert forall|t: int, p2: int, j: int|
                0 <= t < out1.len() && 0 <= p2 < out1[t].len() && 0 <= j < deps@[(
                    #[trigger] out1[t][p2]) as int]@.len() implies in_waves(
                out1.take(t),
                (#[trigger] deps@[out1[t][p2] as int]@[j]) as int,
            ) by {
                if t < t_new {
                    assert(out0[t][p2] == out1[t][p2]);
                    assert(in_waves(out0.take(t), deps@[out0[t][p2] as int]@[j] as int));
                    let (u, q) = choose|u: int, q: int|
                        0 <= u < out0.take(t).len() && 0 <= q < out0.take(t)[u].len() && (
                        #[trigger] out0.take(t)[u][q]) == deps@[out0[t][p2] as int]@[j] as int;
                    assert(out1.take(t)[u][q] == deps@[out1[t][p2] as int]@[j] as int);
                } else {
                    assert(out1[t][p2] == wave@[p2]);
                    assert(placed0[deps@[wave@[p2] as int]@[j] as int]);
                    assert(in_waves(out0, deps@[wave@[p2] as int]@[j] as int));
                    let (u, q) = choose|u: int, q: int|
                        0 <= u < out0.len() && 0 <= q < out0[u].len() && (#[trigger] out0[u][q])
                            == deps@[wave@[p2] as int]@[j] as int;
                    assert(out1.take(t)[u][q] == deps@[out1[t][p2] as int]@[j] as int);
                }
            }
        }
    }
}

/// How many flags are set.
pub open spec fn placed_count(placed: Seq<bool>) -> int
    decreases placed.len(),
{
    if placed.len() == 0 {
        0
    } else {
        placed_count(placed.drop_last()) + if placed.last() {
            1int
        } else {
            0int
        }
    }
}

/// No flags set counts zero.
proof fn lemma_placed_count_zero(placed: Seq<bool>)
    requires
        forall|i: int| 0 <= i < placed.len() ==> !(#[trigger] placed[i]),
    ensures
        placed_count(placed) == 0,
    decreases placed.len(),
{
    if placed.len() > 0 {
        lemma_placed_count_zero(placed.drop_last());
    }
}

/// Setting one unset flag raises the count by one.
proof fn lemma_placed_count_set(placed: Seq<bool>, i: int)
    requires
        0 <= i < placed.len(),
        !placed[i],
    ensures
        placed_count(placed.update(i, true)) == placed_count(placed) + 1,
    decreases placed.len(),
{
    if i == placed.len() - 1 {
        assert(placed.update(i, true).drop_last() =~= placed.drop_last());
    } else {
        assert(placed.update(i, true).drop_last() =~= placed.drop_last().update(i, true));
        assert(placed.update(i, true).last() == placed.last());
        lemma_placed_count_set(placed.drop_last(), i);
    }
}

/// The count never exceeds the length.
proof fn lemma_placed_count_bound(placed: Seq<bool>)
    ensures
        0 <= placed_count(placed) <= placed.len(),
    decreases placed.len(),
{
    if placed.len() > 0 {
        lemma_placed_count_bound(placed.drop_last());
    }
}

} // verus!
