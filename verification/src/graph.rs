//! The dependency graph engine: building a directed graph over compilation
//! units, sweeping reachability from the entrypoint nodes, and classifying
//! every node as required or orphaned.

use vstd::prelude::*;

use crate::order::name_view_seq;
use crate::order::sort_names;
use crate::order::sorted_names;
use crate::units::CompilationUnit;

verus! {

/// One graph vertex, derived 1:1 from a compilation unit.
#[derive(Debug, Clone)]
pub struct DependencyNode {
    /// Copied from the unit.
    pub name: String,
    /// True iff the unit's name appears in the entrypoint set.
    pub is_entry_point: bool,
    /// Initially false; set during the reachability sweep, never reset.
    pub required: bool,
}

impl DependencyNode {
    /// A fresh node for a unit: named, possibly an entrypoint, not yet
    /// known to be required.
    pub fn new(name: &str, is_entry_point: bool) -> (n: DependencyNode)
        ensures
            n.name@ == name@,
            n.is_entry_point == is_entry_point,
            !n.required,
    {
        DependencyNode { name: name.to_owned(), is_entry_point, required: false }
    }
}

/// A directed graph over dependency nodes. `edges[u]` lists the indices of
/// the nodes that node `u` depends on; an edge points from a unit at the
/// things it depends on.
pub struct DependencyGraph {
    pub nodes: Vec<DependencyNode>,
    pub edges: Vec<Vec<usize>>,
}

/// True iff `names` holds a string whose characters are `name`.
pub open spec fn contains_name(names: Seq<String>, name: Seq<char>) -> bool {
    exists|j: int| 0 <= j < names.len() && (#[trigger] names[j])@ == name
}

/// True iff unit `u` declares a dependency whose name is the name of unit `v`.
pub open spec fn unit_depends_on(units: Seq<CompilationUnit>, u: int, v: int) -> bool {
    &&& 0 <= u < units.len()
    &&& 0 <= v < units.len()
    &&& contains_name(units[u].dependencies@, units[v].name@)
}

impl DependencyGraph {
    /// `i` is the index of a node of the graph.
    pub open spec fn valid(self, i: int) -> bool {
        0 <= i < self.nodes@.len()
    }

    /// Well-formed: one adjacency row per node, every edge target a node.
    pub open spec fn wf(self) -> bool {
        &&& self.edges@.len() == self.nodes@.len()
        &&& forall|u: int, j: int|
            0 <= u < self.edges@.len() && 0 <= j < self.edges@[u]@.len()
                ==> (#[trigger] self.edges@[u]@[j]) < self.nodes@.len()
    }

    /// The graph has a directed edge from node `u` to node `v`.
    pub open spec fn has_edge(self, u: int, v: int) -> bool {
        &&& self.valid(u)
        &&& self.valid(v)
        &&& self.edges@[u]@.contains(v as usize)
    }

    /// Node `i` is an entrypoint node.
    pub open spec fn is_entry(self, i: int) -> bool {
        self.valid(i) && self.nodes@[i].is_entry_point
    }

    /// There is a directed path of at most `k` edges from `src` to `dst`.
    pub open spec fn reach_within(self, src: int, dst: int, k: nat) -> bool
        decreases k,
    {
        if !self.valid(src) || !self.valid(dst) {
            false
        } else if src == dst {
            true
        } else if k == 0 {
            false
        } else {
            exists|m: int|
                #[trigger] self.has_edge(m, dst) && self.reach_within(src, m, (k - 1) as nat)
        }
    }

    /// There is a directed path (of any length) from `src` to `dst`.
    pub open spec fn reaches(self, src: int, dst: int) -> bool {
        exists|k: nat| self.reach_within(src, dst, k)
    }

    /// Node `dst` is transitively reachable from some entrypoint node,
    /// the entrypoint itself included.
    pub open spec fn reachable_from_entrypoint(self, dst: int) -> bool {
        exists|e: int| #[trigger] self.is_entry(e) && self.reaches(e, dst)
    }

    /// `other` is `self` with possibly different `required` flags: same
    /// nodes, names, entrypoint marks and edges.
    pub open spec fn same_shape(self, other: DependencyGraph) -> bool {
        &&& other.nodes@.len() == self.nodes@.len()
        &&& other.edges@ == self.edges@
        &&& forall|i: int|
            self.valid(i) ==> (#[trigger] other.nodes@[i]).name == self.nodes@[i].name
                && other.nodes@[i].is_entry_point == self.nodes@[i].is_entry_point
    }

    /// The relation the reachability sweep establishes between the graph
    /// before and after: the shape is untouched, and a node ends up
    /// required exactly when it already was or is reachable from an
    /// entrypoint. No flag ever reverts to false.
    pub open spec fn sweep_rel(self, post: DependencyGraph) -> bool {
        &&& self.same_shape(post)
        &&& forall|i: int|
            self.valid(i) ==> ((#[trigger] post.nodes@[i]).required <==> (self.nodes@[i].required
                || self.reachable_from_entrypoint(i)))
    }

    /// The graph `build_graph` produces from `units` and `entrypoints`:
    /// one node per unit in order, entrypoint marks by name membership, no
    /// node yet required, and one edge per resolvable dependency
    /// declaration — a dependency name matching no unit contributes none.
    pub open spec fn built_from(self, units: Seq<CompilationUnit>, entrypoints: Seq<String>) -> bool {
        &&& self.wf()
        &&& self.nodes@.len() == units.len()
        &&& forall|i: int|
            0 <= i < units.len() ==> (#[trigger] self.nodes@[i]).name@ == units[i].name@
                && (self.nodes@[i].is_entry_point <==> contains_name(entrypoints, units[i].name@))
                && !self.nodes@[i].required
        &&& forall|u: int, v: int| #[trigger] self.has_edge(u, v) ==> unit_depends_on(units, u, v)
        &&& forall|u: int, v: int| #[trigger] unit_depends_on(units, u, v) ==> self.has_edge(u, v)
    }
}

/// Whether one of `names` equals `name`, by characters.
fn names_contain(names: &Vec<String>, name: &String) -> (r: bool)
    ensures
        r == contains_name(names@, name@),
{
    let mut j: usize = 0;
    while j < names.len()
        invariant
            j <= names@.len(),
            forall|i: int| 0 <= i < j ==> (#[trigger] names@[i])@ != name@,
        decreases names@.len() - j,
    {
        if names[j].eq(name) {
            return true;
        }
        j += 1;
    }
    false
}

/// The index of the unit named `name`, if any; with unique unit names the
/// index is the only one.
fn find_unit_index(units: &Vec<CompilationUnit>, name: &String) -> (r: Option<usize>)
    ensures
        match r {
            Some(v) => v < units@.len() && units@[v as int].name@ == name@,
            None => forall|v: int| 0 <= v < units@.len() ==> (#[trigger] units@[v]).name@ != name@,
        },
{
    let mut j: usize = 0;
    while j < units.len()
        invariant
            j <= units@.len(),
            forall|i: int| 0 <= i < j ==> (#[trigger] units@[i]).name@ != name@,
        decreases units@.len() - j,
    {
        if units[j].name.eq(name) {
            return Some(j);
        }
        j += 1;
    }
    None
}

/// Builds the dependency graph: one node per unit, tagged as an entrypoint
/// iff its name appears in `entrypoints`, and one directed edge
/// unit → dependency for every declared dependency name that resolves to a
/// collected unit. Unresolved names are skipped: they contribute no edge
/// and no node. Duplicate unit names are a caller error and are excluded.
pub fn build_graph(units: &Vec<CompilationUnit>, entrypoints: &Vec<String>) -> (g: DependencyGraph)
    requires
        forall|i: int, j: int|
            0 <= i < j < units@.len() ==> (#[trigger] units@[i]).name@ != (
            #[trigger] units@[j]).name@,
    ensures
        g.built_from(units@, entrypoints@),
{
    let n = units.len();
    let mut nodes: Vec<DependencyNode> = Vec::new();
    let mut i: usize = 0;
    while i < n
        invariant
            n == units@.len(),
            i <= n,
            nodes@.len() == i,
            forall|k: int|
                0 <= k < i ==> (#[trigger] nodes@[k]).name@ == units@[k].name@
                    && (nodes@[k].is_entry_point <==> contains_name(
                    entrypoints@,
                    units@[k].name@,
                )) && !nodes@[k].required,
        decreases n - i,
    {
        let is_entry_point = names_contain(entrypoints, &units[i].name);
        nodes.push(DependencyNode::new(units[i].name.as_str(), is_entry_point));
        i += 1;
    }

    let mut edges: Vec<Vec<usize>> = Vec::new();
    let mut u: usize = 0;
    while u < n
        invariant
            n == units@.len(),
            u <= n,
            edges@.len() == u,
            forall|i: int, j: int|
                0 <= i < j < units@.len() ==> (#[trigger] units@[i]).name@ != (
                #[trigger] units@[j]).name@,
            forall|a: int, j: int|
                0 <= a < u && 0 <= j < edges@[a]@.len() ==> (#[trigger] edges@[a]@[j]) < n
                    && contains_name(
                    units@[a].dependencies@,
                    units@[edges@[a]@[j] as int].name@,
                ),
            forall|a: int, v: int|
                0 <= a < u && 0 <= v < n && #[trigger] contains_name(
                    units@[a].dependencies@,
                    units@[v].name@,
                ) ==> edges@[a]@.contains(v as usize),
        decreases n - u,
    {
        let mut row: Vec<usize> = Vec::new();
        let deps = &units[u].dependencies;
        let mut d: usize = 0;
        while d < deps.len()
            invariant
                n == units@.len(),
                u < n,
                deps@ == units@[u as int].dependencies@,
                d <= deps@.len(),
                forall|i: int, j: int|
                    0 <= i < j < units@.len() ==> (#[trigger] units@[i]).name@ != (
                    #[trigger] units@[j]).name@,
                forall|j: int|
                    0 <= j < row@.len() ==> (#[trigger] row@[j]) < n && contains_name(
                        deps@.subrange(0, d as int),
                        units@[row@[j] as int].name@,
                    ),
                forall|v: int|
                    0 <= v < n && contains_name(deps@.subrange(0, d as int), units@[v].name@)
                        ==> row@.contains(v as usize),
            decreases deps@.len() - d,
        {
            let ghost prefix = deps@.subrange(0, d as int);
            let ghost prefix1 = deps@.subrange(0, d + 1 as int);
            let ghost row0 = row@;
            assert(prefix1.drop_last() =~= prefix);
            assert(prefix1.last() == deps@[d as int]);
            assert forall|nm: Seq<char>| contains_name(prefix, nm) implies contains_name(
                prefix1,
                nm,
            ) by {
                let j = choose|j: int| 0 <= j < prefix.len() && (#[trigger] prefix[j])@ == nm;
                assert(prefix1[j]@ == nm);
            }
            match find_unit_index(units, &deps[d]) {
                Some(v) => {
                    row.push(v);
                    assert(contains_name(prefix1, units@[v as int].name@)) by {
                        assert(prefix1[prefix1.len() - 1]@ == units@[v as int].name@);
                    }
                    assert forall|w: int|
                        0 <= w < n && contains_name(prefix1, units@[w].name@) implies row@.contains(
                        w as usize,
                    ) by {
                        let j = choose|j: int|
                            0 <= j < prefix1.len() && (#[trigger] prefix1[j])@ == units@[w].name@;
                        if j < prefix1.len() - 1 {
                            assert(prefix[j]@ == units@[w].name@);
                            assert(contains_name(prefix, units@[w].name@));
                            let k = choose|k: int|
                                0 <= k < row0.len() && (#[trigger] row0[k]) == w as usize;
                            assert(row@[k] == w as usize);
                        } else {
                            assert(units@[w].name@ == units@[v as int].name@);
                            assert(w == v as int);
                            assert(row@[row@.len() - 1] == v);
                        }
                    }
                },
                None => {
                    assert forall|w: int|
                        0 <= w < n && contains_name(prefix1, units@[w].name@) implies row@.contains(
                        w as usize,
                    ) by {
                        let j = choose|j: int|
                            0 <= j < prefix1.len() && (#[trigger] prefix1[j])@ == units@[w].name@;
                        assert(j < prefix1.len() - 1) by {
                            if j == prefix1.len() - 1 {
                                assert(units@[w].name@ == deps@[d as int]@);
                            }
                        }
                        assert(prefix[j]@ == units@[w].name@);
                        assert(contains_name(prefix, units@[w].name@));
                    }
                },
            }
            d += 1;
        }
        assert(deps@.subrange(0, deps@.len() as int) =~= deps@);
        let ghost edges0 = edges@;
        edges.push(row);
        assert(forall|a: int| 0 <= a < u ==> edges@[a] == edges0[a]);
        assert(edges@[u as int] == row);
        u += 1;
    }

    let g = DependencyGraph { nodes, edges };
    assert forall|a: int, v: int| #[trigger] g.has_edge(a, v) implies unit_depends_on(
        units@,
        a,
        v,
    ) by {
        let j = choose|j: int|
            0 <= j < g.edges@[a]@.len() && (#[trigger] g.edges@[a]@[j]) == v as usize;
        assert(contains_name(units@[a].dependencies@, units@[g.edges@[a]@[j] as int].name@));
    }
    assert forall|a: int, v: int| #[trigger] unit_depends_on(units@, a, v) implies g.has_edge(
        a,
        v,
    ) by {
        assert(g.edges@[a]@.contains(v as usize));
    }
    g
}

/// A node reaches itself.
proof fn lemma_reach_self(g: DependencyGraph, i: int)
    requires
        g.valid(i),
    ensures
        g.reaches(i, i),
{
    assert(g.reach_within(i, i, 0));
}

/// A path can be extended along one more edge.
proof fn lemma_reach_step(g: DependencyGraph, src: int, m: int, dst: int)
    requires
        g.reaches(src, m),
        g.has_edge(m, dst),
    ensures
        g.reaches(src, dst),
{
    let k = choose|k: nat| g.reach_within(src, m, k);
    if src == dst {
        assert(g.reach_within(src, dst, 0));
    } else {
        assert(g.has_edge(m, dst) && g.reach_within(src, m, ((k + 1) - 1) as nat));
        assert(g.reach_within(src, dst, k + 1));
    }
}

/// A set that holds `src` and is closed under the graph's edges holds
/// every node that `src` reaches.
proof fn lemma_reach_in_closed_set(g: DependencyGraph, s: Set<int>, src: int, dst: int, k: nat)
    requires
        s.contains(src),
        forall|u: int, v: int| s.contains(u) && #[trigger] g.has_edge(u, v) ==> s.contains(v),
        g.reach_within(src, dst, k),
    ensures
        s.contains(dst),
    decreases k,
{
    if src != dst {
        let m = choose|m: int|
            #[trigger] g.has_edge(m, dst) && g.reach_within(src, m, (k - 1) as nat);
        lemma_reach_in_closed_set(g, s, src, m, (k - 1) as nat);
    }
}

/// How many entries of `s` are false.
spec fn count_false(s: Seq<bool>) -> nat
    decreases s.len(),
{
    if s.len() == 0 {
        0
    } else {
        count_false(s.drop_last()) + (if s.last() {
            0nat
        } else {
            1nat
        })
    }
}

/// Setting a false entry to true lowers the false count by one.
proof fn lemma_count_false_update(s: Seq<bool>, i: int)
    requires
        0 <= i < s.len(),
        !s[i],
    ensures
        count_false(s.update(i, true)) + 1 == count_false(s),
    decreases s.len(),
{
    let t = s.update(i, true);
    if i == s.len() - 1 {
        assert(t.drop_last() =~= s.drop_last());
    } else {
        assert(t.drop_last() =~= s.drop_last().update(i, true));
        lemma_count_false_update(s.drop_last(), i);
    }
}

/// Computes, for every node, whether it is transitively reachable from an
/// entrypoint node, by one depth-first sweep whose visited marks are
/// shared across all entrypoint seeds.
pub fn compute_reachable(g: &DependencyGraph) -> (r: Vec<bool>)
    requires
        g.wf(),
    ensures
        r@.len() == g.nodes@.len(),
        forall|i: int|
            0 <= i < g.nodes@.len() ==> ((#[trigger] r@[i]) <==> g.reachable_from_entrypoint(i)),
{
    let n = g.nodes.len();
    let mut visited: Vec<bool> = Vec::new();
    let mut i: usize = 0;
    while i < n
        invariant
            i <= n,
            visited@.len() == i,
            forall|k: int| 0 <= k < i ==> !(#[trigger] visited@[k]),
        decreases n - i,
    {
        visited.push(false);
        i += 1;
    }

    let mut stack: Vec<usize> = Vec::new();
    let mut i: usize = 0;
    while i < n
        invariant
            n == g.nodes@.len(),
            g.wf(),
            visited@.len() == n,
            i <= n,
            forall|k: int|
                0 <= k < n ==> ((#[trigger] visited@[k]) <==> (k < i && g.is_entry(k))),
            forall|s: int|
                0 <= s < stack@.len() ==> (#[trigger] stack@[s]) < n && visited@[stack@[s] as int],
            forall|k: int| 0 <= k < i && g.is_entry(k) ==> stack@.contains(k as usize),
        decreases n - i,
    {
        let ghost stk_before = stack@;
        if g.nodes[i].is_entry_point {
            visited[i] = true;
            stack.push(i);
        }
        proof {
            assert forall|k: int| 0 <= k < i + 1 && g.is_entry(k) implies stack@.contains(
                k as usize,
            ) by {
                if k < i {
                    let s = choose|s: int|
                        0 <= s < stk_before.len() && (#[trigger] stk_before[s]) == k as usize;
                    assert(stack@[s] == k as usize);
                } else {
                    assert(stack@[stack@.len() - 1] == i);
                }
            }
        }
        i += 1;
    }

    proof {
        assert forall|k: int| 0 <= k < n && #[trigger] visited@[k] implies
            g.reachable_from_entrypoint(k) by {
            lemma_reach_self(*g, k);
            assert(g.is_entry(k) && g.reaches(k, k));
        }
    }

    while stack.len() != 0
        invariant
            n == g.nodes@.len(),
            g.wf(),
            visited@.len() == n,
            forall|s: int|
                0 <= s < stack@.len() ==> (#[trigger] stack@[s]) < n && visited@[stack@[s] as int],
            forall|k: int| 0 <= k < n && g.is_entry(k) ==> visited@[k],
            forall|k: int|
                0 <= k < n && #[trigger] visited@[k] ==> g.reachable_from_entrypoint(k),
            forall|uu: int|
                0 <= uu < n && visited@[uu] && !stack@.contains(uu as usize) ==> (forall|v: int|
                    #[trigger] g.has_edge(uu, v) ==> visited@[v]),
        decreases count_false(visited@), stack@.len(),
    {
        let ghost visited0 = visited@;
        let ghost stack0 = stack@;
        let u = stack.pop().unwrap();
        proof {
            assert forall|uu: int|
                0 <= uu < n && visited@[uu] && uu != u as int && !stack@.contains(uu as usize)
                    implies (forall|v: int| #[trigger] g.has_edge(uu, v) ==> visited@[v]) by {
                assert(!stack0.contains(uu as usize)) by {
                    if stack0.contains(uu as usize) {
                        let s = choose|s: int|
                            0 <= s < stack0.len() && (#[trigger] stack0[s]) == uu as usize;
                        assert(s < stack0.len() - 1);
                        assert(stack@[s] == uu as usize);
                    }
                }
            }
        }
        let mut j: usize = 0;
        while j < g.edges[u].len()
            invariant
                n == g.nodes@.len(),
                g.wf(),
                visited@.len() == n,
                u < n,
                visited@[u as int],
                j <= g.edges@[u as int]@.len(),
                forall|s: int|
                    0 <= s < stack@.len() ==> (#[trigger] stack@[s]) < n && visited@[stack@[
                        s
                    ] as int],
                forall|k: int| 0 <= k < n && g.is_entry(k) ==> visited@[k],
                forall|k: int|
                    0 <= k < n && #[trigger] visited@[k] ==> g.reachable_from_entrypoint(k),
                forall|jj: int|
                    0 <= jj < j ==> visited@[(#[trigger] g.edges@[u as int]@[jj]) as int],
                forall|uu: int|
                    0 <= uu < n && visited@[uu] && uu != u as int && !stack@.contains(uu as usize)
                        ==> (forall|v: int| #[trigger] g.has_edge(uu, v) ==> visited@[v]),
                count_false(visited@) <= count_false(visited0),
                stack@.len() + count_false(visited@) + 1 <= stack0.len() + count_false(visited0),
            decreases g.edges@[u as int]@.len() - j,
        {
            let v = g.edges[u][j];
            let ghost vis_before = visited@;
            let ghost stk_before = stack@;
            if !visited[v] {
                proof {
                    lemma_count_false_update(visited@, v as int);
                    let e = choose|e: int| #[trigger] g.is_entry(e) && g.reaches(e, u as int);
                    assert(g.edges@[u as int]@[j as int] == v);
                    assert(g.edges@[u as int]@.contains(v));
                    assert(g.has_edge(u as int, v as int));
                    lemma_reach_step(*g, e, u as int, v as int);
                    assert(g.is_entry(e) && g.reaches(e, v as int));
                }
                visited[v] = true;
                stack.push(v);
                proof {
                    assert(stack@[stack@.len() - 1] == v);
                    assert(stack@.contains(v));
                    assert forall|uu: int|
                        0 <= uu < n && visited@[uu] && uu != u as int && !stack@.contains(
                            uu as usize,
                        ) implies (forall|w: int| #[trigger] g.has_edge(uu, w) ==> visited@[w]) by {
                        assert(uu != v as int);
                        assert(vis_before[uu]);
                        assert(!stk_before.contains(uu as usize)) by {
                            if stk_before.contains(uu as usize) {
                                let s = choose|s: int|
                                    0 <= s < stk_before.len() && (#[trigger] stk_before[s]) == (
                                    uu as usize);
                                assert(stack@[s] == uu as usize);
                            }
                        }
                        assert forall|w: int| #[trigger] g.has_edge(uu, w) implies visited@[w] by {
                            assert(vis_before[w]);
                        }
                    }
                }
            }
            j += 1;
        }
        proof {
            assert forall|uu: int|
                0 <= uu < n && visited@[uu] && !stack@.contains(uu as usize) implies (forall|
                v: int,
            |
                #[trigger] g.has_edge(uu, v) ==> visited@[v]) by {
                if uu == u as int {
                    assert forall|v: int| #[trigger] g.has_edge(uu, v) implies visited@[v] by {
                        let jj = choose|jj: int|
                            0 <= jj < g.edges@[uu]@.len() && (#[trigger] g.edges@[uu]@[jj]) == (
                            v as usize);
                        assert(visited@[g.edges@[uu]@[jj] as int]);
                    }
                }
            }
        }
    }

    proof {
        let s = Set::new(|k: int| 0 <= k < n && visited@[k]);
        assert forall|dst: int|
            0 <= dst < n && g.reachable_from_entrypoint(dst) implies visited@[dst] by {
            let e = choose|e: int| #[trigger] g.is_entry(e) && g.reaches(e, dst);
            let k = choose|k: nat| g.reach_within(e, dst, k);
            assert(s.contains(e));
            assert forall|a: int, b: int| s.contains(a) && #[trigger] g.has_edge(a, b) implies
                s.contains(b) by {
                assert(visited@[b]);
            }
            lemma_reach_in_closed_set(*g, s, e, dst, k);
        }
    }
    visited
}

/// The reachability sweep: marks as required every node transitively
/// reachable from an entrypoint node, the entrypoints themselves
/// included. Nodes already marked stay marked; names, entrypoint tags and
/// edges are untouched.
pub fn mark_required(g: &mut DependencyGraph)
    requires
        old(g).wf(),
    ensures
        final(g).wf(),
        old(g).sweep_rel(*final(g)),
{
    let ghost g0 = *g;
    let reachable = compute_reachable(g);
    let n = g.nodes.len();
    let mut i: usize = 0;
    while i < n
        invariant
            n == g.nodes@.len(),
            n == g0.nodes@.len(),
            g0.wf(),
            g.edges@ == g0.edges@,
            reachable@.len() == n,
            i <= n,
            forall|k: int|
                0 <= k < n ==> ((#[trigger] reachable@[k]) <==> g0.reachable_from_entrypoint(k)),
            forall|k: int| i <= k < n ==> (#[trigger] g.nodes@[k]) == g0.nodes@[k],
            forall|k: int|
                0 <= k < i ==> (#[trigger] g.nodes@[k]).name == g0.nodes@[k].name
                    && g.nodes@[k].is_entry_point == g0.nodes@[k].is_entry_point && (
                g.nodes@[k].required <==> (g0.nodes@[k].required || g0.reachable_from_entrypoint(
                    k,
                ))),
        decreases n - i,
    {
        if reachable[i] {
            g.nodes[i].required = true;
        }
        i += 1;
    }
}

/// The names of the nodes of `nodes` that are not required, in node order.
pub open spec fn orphan_names_of(nodes: Seq<DependencyNode>) -> Seq<Seq<char>>
    decreases nodes.len(),
{
    if nodes.len() == 0 {
        Seq::empty()
    } else {
        let rest = orphan_names_of(nodes.drop_last());
        if nodes.last().required {
            rest
        } else {
            rest.push(nodes.last().name@)
        }
    }
}

/// Classifies the graph after the reachability sweep: every node still not
/// required is an orphan, and the orphan names are reported sorted
/// lexicographically, for deterministic, reproducible output. No node is
/// removed; this is a read-only query.
pub fn orphans(g: &DependencyGraph) -> (r: Vec<String>)
    ensures
        sorted_names(name_view_seq(r@)),
        name_view_seq(r@).to_multiset() == orphan_names_of(g.nodes@).to_multiset(),
{
    let mut collected: Vec<String> = Vec::new();
    let n = g.nodes.len();
    let mut i: usize = 0;
    while i < n
        invariant
            n == g.nodes@.len(),
            i <= n,
            name_view_seq(collected@) == orphan_names_of(g.nodes@.subrange(0, i as int)),
        decreases n - i,
    {
        let ghost pre = g.nodes@.subrange(0, i as int);
        let ghost pre1 = g.nodes@.subrange(0, i + 1 as int);
        let ghost col0 = collected@;
        proof {
            assert(pre1.drop_last() =~= pre);
            assert(pre1.last() == g.nodes@[i as int]);
        }
        if !g.nodes[i].required {
            collected.push(g.nodes[i].name.clone());
            proof {
                assert(name_view_seq(collected@) =~= name_view_seq(col0).push(
                    g.nodes@[i as int].name@,
                ));
            }
        }
        i += 1;
    }
    proof {
        assert(g.nodes@.subrange(0, n as int) =~= g.nodes@);
    }
    sort_names(collected)
}

/// Orphan classification reads only the names and the required flags: two
/// node lists that agree on them report the same orphans.
proof fn lemma_orphan_names_congruent(a: Seq<DependencyNode>, b: Seq<DependencyNode>)
    requires
        a.len() == b.len(),
        forall|i: int|
            0 <= i < a.len() ==> (#[trigger] a[i]).name@ == b[i].name@ && a[i].required
                == b[i].required,
    ensures
        orphan_names_of(a) == orphan_names_of(b),
    decreases a.len(),
{
    if a.len() > 0 {
        lemma_orphan_names_congruent(a.drop_last(), b.drop_last());
    }
}

/// Two graphs with the same nodes, entry marks and edge relation, however
/// the edges are laid out.
pub open spec fn same_structure(a: DependencyGraph, b: DependencyGraph) -> bool {
    &&& a.nodes@.len() == b.nodes@.len()
    &&& forall|u: int, v: int| #[trigger] a.has_edge(u, v) == b.has_edge(u, v)
    &&& forall|i: int| a.valid(i) ==> #[trigger] a.is_entry(i) == b.is_entry(i)
}

/// Reachability within a bound depends only on the edge relation and the
/// entry marks.
proof fn lemma_structure_reach_within(
    g1: DependencyGraph,
    g2: DependencyGraph,
    src: int,
    dst: int,
    k: nat,
)
    requires
        same_structure(g1, g2),
    ensures
        g1.reach_within(src, dst, k) == g2.reach_within(src, dst, k),
    decreases k,
{
    if k > 0 && g1.valid(src) && g1.valid(dst) && src != dst {
        assert forall|m: int|
            #[trigger] g1.has_edge(m, dst) && g1.reach_within(src, m, (k - 1) as nat) implies (
        g2.has_edge(m, dst) && g2.reach_within(src, m, (k - 1) as nat)) by {
            lemma_structure_reach_within(g1, g2, src, m, (k - 1) as nat);
        }
        assert forall|m: int|
            #[trigger] g2.has_edge(m, dst) && g2.reach_within(src, m, (k - 1) as nat) implies (
        g1.has_edge(m, dst) && g1.reach_within(src, m, (k - 1) as nat)) by {
            lemma_structure_reach_within(g1, g2, src, m, (k - 1) as nat);
        }
    }
}

/// Reachability from the entrypoints depends only on the edge relation
/// and the entry marks.
proof fn lemma_structure_reachable(g1: DependencyGraph, g2: DependencyGraph, dst: int)
    requires
        same_structure(g1, g2),
    ensures
        g1.reachable_from_entrypoint(dst) == g2.reachable_from_entrypoint(dst),
{
    assert forall|e: int| #[trigger] g1.is_entry(e) && g1.reaches(e, dst) implies (g2.is_entry(e)
        && g2.reaches(e, dst)) by {
        let k = choose|k: nat| g1.reach_within(e, dst, k);
        lemma_structure_reach_within(g1, g2, e, dst, k);
    }
    assert forall|e: int| #[trigger] g2.is_entry(e) && g2.reaches(e, dst) implies (g1.is_entry(e)
        && g1.reaches(e, dst)) by {
        let k = choose|k: nat| g2.reach_within(e, dst, k);
        lemma_structure_reach_within(g1, g2, e, dst, k);
    }
}

/// A graph differing only in `required` flags has the same structure.
proof fn lemma_same_shape_structure(g1: DependencyGraph, g2: DependencyGraph)
    requires
        g1.same_shape(g2),
    ensures
        same_structure(g1, g2),
{
    assert forall|u: int, v: int| #[trigger] g1.has_edge(u, v) == g2.has_edge(u, v) by {
        if g1.valid(u) && g1.valid(v) {
            assert(g1.edges@[u] == g2.edges@[u]);
        }
    }
}

/// Reachability closure: the required set after the sweep is the least
/// fixed point containing the entrypoints and closed under "if `u` is
/// required and the edge `u` → `v` exists, then `v` is required". Here
/// `s` is any set containing the entrypoint nodes and closed under the
/// edges; the required set contains the entrypoints, is itself closed,
/// and is contained in every such `s`.
pub proof fn lemma_sweep_least_fixed_point(
    pre: DependencyGraph,
    post: DependencyGraph,
    s: Set<int>,
)
    requires
        pre.wf(),
        pre.sweep_rel(post),
        forall|i: int| pre.valid(i) ==> !(#[trigger] pre.nodes@[i]).required,
        forall|e: int| #[trigger] pre.is_entry(e) ==> s.contains(e),
        forall|u: int, v: int| s.contains(u) && #[trigger] pre.has_edge(u, v) ==> s.contains(v),
    ensures
        forall|e: int| #[trigger] pre.is_entry(e) ==> post.nodes@[e].required,
        forall|u: int, v: int|
            pre.valid(u) && post.nodes@[u].required && #[trigger] pre.has_edge(u, v)
                ==> post.nodes@[v].required,
        forall|i: int| pre.valid(i) && (#[trigger] post.nodes@[i]).required ==> s.contains(i),
{
    assert forall|e: int| #[trigger] pre.is_entry(e) implies post.nodes@[e].required by {
        lemma_reach_self(pre, e);
        assert(pre.is_entry(e) && pre.reaches(e, e));
    }
    assert forall|u: int, v: int|
        pre.valid(u) && post.nodes@[u].required && #[trigger] pre.has_edge(u, v) implies
        post.nodes@[v].required by {
        assert(pre.reachable_from_entrypoint(u));
        let e = choose|e: int| #[trigger] pre.is_entry(e) && pre.reaches(e, u);
        lemma_reach_step(pre, e, u, v);
        assert(pre.is_entry(e) && pre.reaches(e, v));
    }
    assert forall|i: int| pre.valid(i) && (#[trigger] post.nodes@[i]).required implies s.contains(
        i,
    ) by {
        let e = choose|e: int| #[trigger] pre.is_entry(e) && pre.reaches(e, i);
        let k = choose|k: nat| pre.reach_within(e, i, k);
        lemma_reach_in_closed_set(pre, s, e, i, k);
    }
}

/// Idempotence: sweeping a graph a second time changes no required flag —
/// the sweep is monotone and a flag never reverts to false.
pub proof fn lemma_sweep_idempotent(
    g0: DependencyGraph,
    g1: DependencyGraph,
    g2: DependencyGraph,
)
    requires
        g0.sweep_rel(g1),
        g1.sweep_rel(g2),
    ensures
        forall|i: int|
            g1.valid(i) ==> (#[trigger] g2.nodes@[i]).required == g1.nodes@[i].required,
{
    lemma_same_shape_structure(g0, g1);
    assert forall|i: int| g1.valid(i) implies (#[trigger] g2.nodes@[i]).required
        == g1.nodes@[i].required by {
        lemma_structure_reachable(g0, g1, i);
    }
}

/// Disconnection correctness: a node with no incoming edges that is not
/// itself an entrypoint is never marked required by the sweep — it is
/// always reported as an orphan.
pub proof fn lemma_disconnected_node_is_orphan(
    pre: DependencyGraph,
    post: DependencyGraph,
    i: int,
)
    requires
        pre.sweep_rel(post),
        pre.valid(i),
        !pre.nodes@[i].required,
        !pre.is_entry(i),
        forall|u: int| !(#[trigger] pre.has_edge(u, i)),
    ensures
        !post.nodes@[i].required,
{
    if pre.reachable_from_entrypoint(i) {
        let e = choose|e: int| #[trigger] pre.is_entry(e) && pre.reaches(e, i);
        let k = choose|k: nat| pre.reach_within(e, i, k);
        assert(e != i);
        let m = choose|m: int|
            #[trigger] pre.has_edge(m, i) && pre.reach_within(e, m, (k - 1) as nat);
        assert(false);
    }
}

/// Unresolved dependency safety: every edge of a built graph comes from a
/// declared dependency name that resolved to a collected unit, so a
/// dependency name with no matching unit contributes no edge.
pub proof fn lemma_unresolved_dependencies_add_no_edges(
    g: DependencyGraph,
    units: Seq<CompilationUnit>,
    entrypoints: Seq<String>,
)
    requires
        g.built_from(units, entrypoints),
    ensures
        forall|u: int, v: int|
            #[trigger] g.has_edge(u, v) ==> contains_name(units[u].dependencies@, units[v].name@),
{
}

/// `names` is a correct orphan report for `units` and `entrypoints`:
/// sorted, and holding exactly the names of the units a built and swept
/// graph leaves unrequired.
pub open spec fn orphan_report(
    units: Seq<CompilationUnit>,
    entrypoints: Seq<String>,
    names: Seq<Seq<char>>,
) -> bool {
    &&& sorted_names(names)
    &&& exists|pre: DependencyGraph, post: DependencyGraph|
        #![trigger pre.built_from(units, entrypoints), pre.sweep_rel(post)]
        pre.built_from(units, entrypoints) && pre.sweep_rel(post) && names.to_multiset()
            == orphan_names_of(post.nodes@).to_multiset()
}

/// The whole analysis over materialized inputs: builds the dependency
/// graph, sweeps reachability from the entrypoints, and reports the
/// orphaned unit names, sorted.
pub fn find_orphans(units: &Vec<CompilationUnit>, entrypoints: &Vec<String>) -> (r: Vec<String>)
    requires
        forall|i: int, j: int|
            0 <= i < j < units@.len() ==> (#[trigger] units@[i]).name@ != (
            #[trigger] units@[j]).name@,
    ensures
        orphan_report(units@, entrypoints@, name_view_seq(r@)),
{
    let mut g = build_graph(units, entrypoints);
    let ghost pre = g;
    mark_required(&mut g);
    let ghost post = g;
    let r = orphans(&g);
    proof {
        assert(pre.built_from(units@, entrypoints@) && pre.sweep_rel(post) && name_view_seq(
            r@,
        ).to_multiset() == orphan_names_of(post.nodes@).to_multiset());
    }
    r
}

/// Determinism: the sorted orphan report computed from a set of units and
/// entrypoints is unique — two runs of the pipeline over identical input
/// produce identical output, however each run laid out its graph.
pub proof fn lemma_pipeline_deterministic(
    units: Seq<CompilationUnit>,
    entrypoints: Seq<String>,
    ga: DependencyGraph,
    pa: DependencyGraph,
    ra: Seq<Seq<char>>,
    gb: DependencyGraph,
    pb: DependencyGraph,
    rb: Seq<Seq<char>>,
)
    requires
        ga.built_from(units, entrypoints),
        ga.sweep_rel(pa),
        sorted_names(ra),
        ra.to_multiset() == orphan_names_of(pa.nodes@).to_multiset(),
        gb.built_from(units, entrypoints),
        gb.sweep_rel(pb),
        sorted_names(rb),
        rb.to_multiset() == orphan_names_of(pb.nodes@).to_multiset(),
    ensures
        ra == rb,
{
    assert(same_structure(ga, gb)) by {
        assert forall|u: int, v: int| #[trigger] ga.has_edge(u, v) == gb.has_edge(u, v) by {
            if ga.has_edge(u, v) {
                assert(unit_depends_on(units, u, v));
            }
            if gb.has_edge(u, v) {
                assert(unit_depends_on(units, u, v));
            }
        }
    }
    assert forall|i: int|
        0 <= i < pa.nodes@.len() implies (#[trigger] pa.nodes@[i]).name@ == pb.nodes@[i].name@
        && pa.nodes@[i].required == pb.nodes@[i].required by {
        lemma_structure_reachable(ga, gb, i);
        assert(ga.valid(i));
        assert(pa.nodes@[i].required <==> ga.reachable_from_entrypoint(i));
        assert(pb.nodes@[i].required <==> gb.reachable_from_entrypoint(i));
    }
    lemma_orphan_names_congruent(pa.nodes@, pb.nodes@);
    crate::order::lemma_sorted_names_unique(ra, rb);
}

/// Determinism of the pipeline as a whole: any two orphan reports for
/// the same units and entrypoints are identical, so two runs over
/// identical input produce byte-identical output.
pub proof fn lemma_orphan_report_unique(
    units: Seq<CompilationUnit>,
    entrypoints: Seq<String>,
    ra: Seq<Seq<char>>,
    rb: Seq<Seq<char>>,
)
    requires
        orphan_report(units, entrypoints, ra),
        orphan_report(units, entrypoints, rb),
    ensures
        ra == rb,
{
    let (ga, pa): (DependencyGraph, DependencyGraph) = choose|ga: DependencyGraph, pa: DependencyGraph|
        #![trigger ga.built_from(units, entrypoints), ga.sweep_rel(pa)]
        ga.built_from(units, entrypoints) && ga.sweep_rel(pa) && ra.to_multiset()
            == orphan_names_of(pa.nodes@).to_multiset();
    let (gb, pb): (DependencyGraph, DependencyGraph) = choose|gb: DependencyGraph, pb: DependencyGraph|
        #![trigger gb.built_from(units, entrypoints), gb.sweep_rel(pb)]
        gb.built_from(units, entrypoints) && gb.sweep_rel(pb) && rb.to_multiset()
            == orphan_names_of(pb.nodes@).to_multiset();
    lemma_pipeline_deterministic(units, entrypoints, ga, pa, ra, gb, pb, rb);
}

} // verus!
