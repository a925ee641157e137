//! Recursion detection over the helper-function call graph.
//!
//! The graph maps each declared helper to the set of helpers its body calls.
//! A depth-first walk marks each helper `Visiting` while it is on the current
//! path and `Visited` once all of its callees are done; meeting a `Visiting`
//! callee closes a cycle, which is reported from its first occurrence on the
//! path back to itself.
use vstd::prelude::*;
use vstd::set_lib::{lemma_len_subset};
use vstd::seq_lib::seq_to_set_is_finite;

use crate::keymap::{assoc_get, lemma_assoc_index, lemma_insert_get, same_text, KeyMap};
use super::plan::{calls_in, collect_function_calls, names_of, FiniteDecisionFunction, FiniteDecisionLowerError};
use crate::l3_v2::L3ExprV2;

verus! {

/// The state of a helper in the depth-first walk.
#[derive(Clone, Copy, Debug, PartialEq, Eq, Structural)]
pub enum DfsMark {
    Visiting,
    Visited,
}

/// The helpers that `n` calls (none for a name that is not declared).
pub open spec fn callees(g: Seq<(Seq<char>, KeyMap<()>)>, n: Seq<char>) -> Seq<Seq<char>> {
    match assoc_get(g, n) {
        Some(m) => m.pairs().map_values(|p: (Seq<char>, ())| p.0),
        None => Seq::empty(),
    }
}

/// `a` calls `b`.
pub open spec fn calls(g: Seq<(Seq<char>, KeyMap<()>)>, a: Seq<char>, b: Seq<char>) -> bool {
    callees(g, a).contains(b)
}

/// The `j`-th step of `p` is a call.
pub open spec fn linked(g: Seq<(Seq<char>, KeyMap<()>)>, p: Seq<Seq<char>>, j: int) -> bool {
    calls(g, p[j], p[j + 1])
}

/// Each helper of `p` calls the next one.
pub open spec fn is_call_chain(g: Seq<(Seq<char>, KeyMap<()>)>, p: Seq<Seq<char>>) -> bool {
    forall|j: int| 0 <= j < p.len() - 1 ==> #[trigger] linked(g, p, j)
}

/// `c` is a chain of calls that returns to where it started, and its last
/// call is made by `func`.
pub open spec fn is_call_cycle(g: Seq<(Seq<char>, KeyMap<()>)>, func: Seq<char>, c: Seq<Seq<char>>) -> bool {
    &&& c.len() >= 2
    &&& c[0] == c.last()
    &&& c[c.len() - 2] == func
    &&& is_call_chain(g, c)
}

/// The declared helpers.
pub open spec fn graph_keys(g: Seq<(Seq<char>, KeyMap<()>)>) -> Set<Seq<char>> {
    g.map_values(|p: (Seq<char>, KeyMap<()>)| p.0).to_set()
}

/// Number of declared helpers not yet marked.
pub open spec fn unvisited(g: Seq<(Seq<char>, KeyMap<()>)>, marks: Map<Seq<char>, DfsMark>) -> nat {
    graph_keys(g).difference(marks.dom()).len()
}

/// The cycle closed by meeting `next` again: the path from the first
/// occurrence of `next` on, followed by `next`.
pub open spec fn cycle_from(path: Seq<Seq<char>>, next: Seq<char>) -> Seq<Seq<char>> {
    let start = match path.index_of_first(next) {
        Some(i) => i,
        None => 0,
    };
    path.subrange(start, path.len() as int).push(next)
}

/// How a walk ends: with the marks it leaves, or with a cycle, named by the
/// helper whose call closes it.
pub enum DfsOutcome {
    Done(Map<Seq<char>, DfsMark>),
    Cycle(Seq<char>, Seq<Seq<char>>),
}

/// The walk from `node`, which is not yet marked, with `path` the helpers
/// being visited. `fuel` bounds the depth of the walk; with enough of it the
/// bound is never reached.
pub open spec fn dfs_visit(
    g: Seq<(Seq<char>, KeyMap<()>)>,
    node: Seq<char>,
    marks: Map<Seq<char>, DfsMark>,
    path: Seq<Seq<char>>,
    fuel: nat,
) -> DfsOutcome
    decreases fuel, 1nat, 0nat,
{
    if fuel == 0 {
        DfsOutcome::Done(marks)
    } else {
        dfs_scan(g, node, 0, marks.insert(node, DfsMark::Visiting), path.push(node), fuel)
    }
}

/// The walk over the callees of `node` from the `i`-th on.
pub open spec fn dfs_scan(
    g: Seq<(Seq<char>, KeyMap<()>)>,
    node: Seq<char>,
    i: nat,
    marks: Map<Seq<char>, DfsMark>,
    path: Seq<Seq<char>>,
    fuel: nat,
) -> DfsOutcome
    decreases fuel, 0nat, callees(g, node).len() - i,
{
    if i >= callees(g, node).len() {
        DfsOutcome::Done(marks.insert(node, DfsMark::Visited))
    } else {
        let next = callees(g, node)[i as int];
        if marks.contains_key(next) {
            if marks[next] == DfsMark::Visiting {
                DfsOutcome::Cycle(node, cycle_from(path, next))
            } else {
                dfs_scan(g, node, i + 1, marks, path, fuel)
            }
        } else if fuel == 0 {
            DfsOutcome::Done(marks)
        } else {
            match dfs_visit(g, next, marks, path, (fuel - 1) as nat) {
                DfsOutcome::Done(m) => dfs_scan(g, node, i + 1, m, path, fuel),
                DfsOutcome::Cycle(f, c) => DfsOutcome::Cycle(f, c),
            }
        }
    }
}

/// The walk started from every declared helper from the `i`-th on that is
/// not yet marked, in ascending order of names.
pub open spec fn dfs_all(g: Seq<(Seq<char>, KeyMap<()>)>, i: nat, marks: Map<Seq<char>, DfsMark>) -> DfsOutcome
    decreases g.len() - i,
{
    if i >= g.len() {
        DfsOutcome::Done(marks)
    } else if marks.contains_key(g[i as int].0) {
        dfs_all(g, i + 1, marks)
    } else {
        match dfs_visit(g, g[i as int].0, marks, Seq::empty(), unvisited(g, marks) + 1) {
            DfsOutcome::Done(m) => dfs_all(g, i + 1, m),
            DfsOutcome::Cycle(f, c) => DfsOutcome::Cycle(f, c),
        }
    }
}

/// The marks a map holds.
pub open spec fn marks_map(m: KeyMap<DfsMark>) -> Map<Seq<char>, DfsMark> {
    Map::new(|k: Seq<char>| m.has(k), |k: Seq<char>| m.lookup(k)->0)
}

/// Names as character sequences.
pub open spec fn names_view(p: Seq<String>) -> Seq<Seq<char>> {
    p.map_values(|s: String| s@)
}

/// `r` and the marks left behind are what outcome `o` describes.
pub open spec fn reports(r: Result<(), FiniteDecisionLowerError>, marks: Map<Seq<char>, DfsMark>, o: DfsOutcome) -> bool {
    match o {
        DfsOutcome::Done(m) => r is Ok && marks == m,
        DfsOutcome::Cycle(f, c) => r matches Err(FiniteDecisionLowerError::FunctionCycle { func, cycle }) && func@ == f
            && names_view(cycle@) == c,
    }
}

/// Every helper marked `Visiting` is on `path`.
pub open spec fn visiting_on(marks: Map<Seq<char>, DfsMark>, path: Seq<Seq<char>>) -> bool {
    forall|k: Seq<char>| #[trigger] marks.contains_key(k) && marks[k] == DfsMark::Visiting ==> path.contains(k)
}

/// `m` keeps every mark of `marks`.
pub open spec fn keeps_marks(marks: Map<Seq<char>, DfsMark>, m: Map<Seq<char>, DfsMark>) -> bool {
    forall|k: Seq<char>| #[trigger] marks.contains_key(k) ==> m.contains_key(k) && m[k] == marks[k]
}

/// Every helper `m` marks `Visiting` was already marked in `marks`.
pub open spec fn no_new_visiting(marks: Map<Seq<char>, DfsMark>, m: Map<Seq<char>, DfsMark>) -> bool {
    forall|k: Seq<char>| #[trigger] m.contains_key(k) && m[k] == DfsMark::Visiting ==> marks.contains_key(k)
}

proof fn lemma_cycle_found(g: Seq<(Seq<char>, KeyMap<()>)>, node: Seq<char>, path: Seq<Seq<char>>, next: Seq<char>)
    requires
        is_call_chain(g, path),
        path.len() > 0,
        path.last() == node,
        path.contains(next),
        calls(g, node, next),
    ensures
        is_call_cycle(g, node, cycle_from(path, next)),
{
    path.index_of_first_ensures(next);
    let p = path.index_of_first(next)->0;
    let c = cycle_from(path, next);
    assert(c.len() == path.len() - p + 1);
    assert(c[0] == path[p]);
    assert(c[c.len() - 2] == path[path.len() - 1]);
    assert forall|j: int| 0 <= j < c.len() - 1 implies #[trigger] linked(g, c, j) by {
        if j < c.len() - 2 {
            assert(linked(g, path, p + j));
            assert(c[j] == path[p + j]);
            assert(c[j + 1] == path[p + j + 1]);
        } else {
            assert(c[j] == node);
            assert(c[j + 1] == next);
        }
    }
}

proof fn lemma_chain_push(g: Seq<(Seq<char>, KeyMap<()>)>, path: Seq<Seq<char>>, node: Seq<char>)
    requires
        is_call_chain(g, path),
        path.len() > 0 ==> calls(g, path.last(), node),
    ensures
        is_call_chain(g, path.push(node)),
{
    let q = path.push(node);
    assert forall|j: int| 0 <= j < q.len() - 1 implies #[trigger] linked(g, q, j) by {
        if j < path.len() - 1 {
            assert(linked(g, path, j));
        }
    }
}

/// A walk from an unmarked helper reports only real cycles, and when it ends
/// without one it keeps the marks it found and leaves no new helper
/// `Visiting`.
proof fn lemma_visit_sound(
    g: Seq<(Seq<char>, KeyMap<()>)>,
    node: Seq<char>,
    marks: Map<Seq<char>, DfsMark>,
    path: Seq<Seq<char>>,
    fuel: nat,
)
    requires
        is_call_chain(g, path),
        path.len() > 0 ==> calls(g, path.last(), node),
        visiting_on(marks, path),
        !marks.contains_key(node),
    ensures
        match dfs_visit(g, node, marks, path, fuel) {
            DfsOutcome::Cycle(f, c) => is_call_cycle(g, f, c),
            DfsOutcome::Done(m) => keeps_marks(marks, m) && no_new_visiting(marks, m),
        },
    decreases fuel, 1nat, 0nat,
{
    if fuel > 0 {
        let m1 = marks.insert(node, DfsMark::Visiting);
        lemma_chain_push(g, path, node);
        assert forall|k: Seq<char>| #[trigger] m1.contains_key(k) && m1[k] == DfsMark::Visiting implies path.push(node).contains(k) by {
            if k == node {
                assert(path.push(node)[path.len() as int] == node);
            } else {
                let j = choose|j: int| 0 <= j < path.len() && path[j] == k;
                assert(path.push(node)[j] == k);
            }
        }
        lemma_scan_sound(g, node, 0, m1, path.push(node), fuel);
        match dfs_scan(g, node, 0, m1, path.push(node), fuel) {
            DfsOutcome::Done(m) => {
                assert forall|k: Seq<char>| #[trigger] marks.contains_key(k) implies m.contains_key(k) && m[k] == marks[k] by {
                    assert(m1.contains_key(k) && k != node);
                }
                assert forall|k: Seq<char>| #[trigger] m.contains_key(k) && m[k] == DfsMark::Visiting implies marks.contains_key(k) by {
                    assert(m1.contains_key(k) && k != node);
                }
            },
            DfsOutcome::Cycle(f, c) => {},
        }
    }
}

proof fn lemma_scan_sound(
    g: Seq<(Seq<char>, KeyMap<()>)>,
    node: Seq<char>,
    i: nat,
    marks: Map<Seq<char>, DfsMark>,
    path: Seq<Seq<char>>,
    fuel: nat,
)
    requires
        is_call_chain(g, path),
        path.len() > 0,
        path.last() == node,
        visiting_on(marks, path),
        marks.contains_key(node),
        marks[node] == DfsMark::Visiting,
        fuel > 0,
    ensures
        match dfs_scan(g, node, i, marks, path, fuel) {
            DfsOutcome::Cycle(f, c) => is_call_cycle(g, f, c),
            DfsOutcome::Done(m) => {
                &&& forall|k: Seq<char>| #[trigger] marks.contains_key(k) && k != node ==> m.contains_key(k) && m[k] == marks[k]
                &&& m.contains_key(node) && m[node] == DfsMark::Visited
                &&& forall|k: Seq<char>| #[trigger] m.contains_key(k) && m[k] == DfsMark::Visiting ==> marks.contains_key(k) && k != node
            },
        },
    decreases fuel, 0nat, callees(g, node).len() - i,
{
    if i < callees(g, node).len() {
        let next = callees(g, node)[i as int];
        assert(calls(g, node, next));
        if marks.contains_key(next) {
            if marks[next] == DfsMark::Visiting {
                lemma_cycle_found(g, node, path, next);
            } else {
                lemma_scan_sound(g, node, i + 1, marks, path, fuel);
            }
        } else if fuel > 0 {
            lemma_visit_sound(g, next, marks, path, (fuel - 1) as nat);
            match dfs_visit(g, next, marks, path, (fuel - 1) as nat) {
                DfsOutcome::Done(m) => {
                    assert forall|k: Seq<char>| #[trigger] m.contains_key(k) && m[k] == DfsMark::Visiting implies path.contains(k) by {
                        assert(marks.contains_key(k));
                    }
                    assert(m.contains_key(node));
                    lemma_scan_sound(g, node, i + 1, m, path, fuel);
                    match dfs_scan(g, node, i + 1, m, path, fuel) {
                        DfsOutcome::Done(m2) => {
                            assert forall|k: Seq<char>| #[trigger] marks.contains_key(k) && k != node implies m2.contains_key(k) && m2[k] == marks[k] by {
                                assert(m.contains_key(k));
                            }
                            assert forall|k: Seq<char>| #[trigger] m2.contains_key(k) && m2[k] == DfsMark::Visiting implies marks.contains_key(k) && k != node by {
                                assert(m.contains_key(k));
                            }
                        },
                        DfsOutcome::Cycle(f, c) => {},
                    }
                },
                DfsOutcome::Cycle(f, c) => {},
            }
        }
    }
}

/// Starting walks from the declared helpers reports only real cycles.
proof fn lemma_all_sound(g: Seq<(Seq<char>, KeyMap<()>)>, i: nat, marks: Map<Seq<char>, DfsMark>)
    requires
        visiting_on(marks, Seq::empty()),
    ensures
        dfs_all(g, i, marks) matches DfsOutcome::Cycle(f, c) ==> is_call_cycle(g, f, c),
    decreases g.len() - i,
{
    if i < g.len() {
        if marks.contains_key(g[i as int].0) {
            lemma_all_sound(g, i + 1, marks);
        } else {
            let fuel = unvisited(g, marks) + 1;
            lemma_visit_sound(g, g[i as int].0, marks, Seq::empty(), fuel);
            match dfs_visit(g, g[i as int].0, marks, Seq::empty(), fuel) {
                DfsOutcome::Done(m) => {
                    assert forall|k: Seq<char>| #[trigger] m.contains_key(k) && m[k] == DfsMark::Visiting implies Seq::<Seq<char>>::empty().contains(k) by {
                        assert(marks.contains_key(k));
                    }
                    lemma_all_sound(g, i + 1, m);
                },
                DfsOutcome::Cycle(f, c) => {},
            }
        }
    }
}

/// A declared helper marked for the first time leaves fewer unmarked.
proof fn lemma_unvisited_drop(
    g: Seq<(Seq<char>, KeyMap<()>)>,
    m0: Map<Seq<char>, DfsMark>,
    m: Map<Seq<char>, DfsMark>,
    node: Seq<char>,
)
    requires
        graph_keys(g).contains(node),
        !m0.contains_key(node),
        m0.dom().insert(node).subset_of(m.dom()),
    ensures
        unvisited(g, m) < unvisited(g, m0),
{
    let keys = graph_keys(g);
    seq_to_set_is_finite(g.map_values(|p: (Seq<char>, KeyMap<()>)| p.0));
    let a = keys.difference(m0.dom());
    let b = keys.difference(m.dom());
    lemma_len_subset(a, keys);
    assert(b.subset_of(a.remove(node)));
    lemma_len_subset(b, a.remove(node));
    assert(a.contains(node));
    vstd::set::axiom_set_remove_len(a, node);
}

/// Marking more helpers does not leave more unmarked.
proof fn lemma_unvisited_mono(g: Seq<(Seq<char>, KeyMap<()>)>, m0: Map<Seq<char>, DfsMark>, m: Map<Seq<char>, DfsMark>)
    requires
        m0.dom().subset_of(m.dom()),
    ensures
        unvisited(g, m) <= unvisited(g, m0),
{
    let keys = graph_keys(g);
    seq_to_set_is_finite(g.map_values(|p: (Seq<char>, KeyMap<()>)| p.0));
    let a = keys.difference(m0.dom());
    lemma_len_subset(a, keys);
    lemma_len_subset(keys.difference(m.dom()), a);
}

/// `k` is marked `Visited`.
pub open spec fn visited(m: Map<Seq<char>, DfsMark>, k: Seq<char>) -> bool {
    m.contains_key(k) && m[k] == DfsMark::Visited
}

/// Every helper a visited helper calls is visited too.
pub open spec fn visited_closed(g: Seq<(Seq<char>, KeyMap<()>)>, m: Map<Seq<char>, DfsMark>) -> bool {
    forall|k: Seq<char>, s: Seq<char>| visited(m, k) && #[trigger] calls(g, k, s) ==> visited(m, s)
}

/// `c` is a cycle of calls through visited helpers only.
pub open spec fn visited_cycle(g: Seq<(Seq<char>, KeyMap<()>)>, m: Map<Seq<char>, DfsMark>, c: Seq<Seq<char>>) -> bool {
    &&& c.len() >= 2
    &&& c[0] == c.last()
    &&& is_call_chain(g, c)
    &&& forall|j: int| 0 <= j < c.len() ==> visited(m, #[trigger] c[j])
}

/// No cycle of calls runs through visited helpers only.
pub open spec fn no_visited_cycle(g: Seq<(Seq<char>, KeyMap<()>)>, m: Map<Seq<char>, DfsMark>) -> bool {
    forall|c: Seq<Seq<char>>| !#[trigger] visited_cycle(g, m, c)
}

/// Some helper reaches itself through calls.
pub open spec fn has_call_cycle(g: Seq<(Seq<char>, KeyMap<()>)>) -> bool {
    exists|f: Seq<char>, c: Seq<Seq<char>>| is_call_cycle(g, f, c)
}

/// Marking an unmarked helper `Visiting` keeps the visited part closed and
/// acyclic.
proof fn lemma_start_keeps(g: Seq<(Seq<char>, KeyMap<()>)>, m: Map<Seq<char>, DfsMark>, u: Seq<char>)
    requires
        visited_closed(g, m),
        no_visited_cycle(g, m),
        !m.contains_key(u),
    ensures
        visited_closed(g, m.insert(u, DfsMark::Visiting)),
        no_visited_cycle(g, m.insert(u, DfsMark::Visiting)),
{
    let m1 = m.insert(u, DfsMark::Visiting);
    assert forall|k: Seq<char>, s: Seq<char>| visited(m1, k) && #[trigger] calls(g, k, s) implies visited(m1, s) by {
        assert(visited(m, k));
        assert(visited(m, s));
    }
    assert forall|c: Seq<Seq<char>>| !#[trigger] visited_cycle(g, m1, c) by {
        if visited_cycle(g, m1, c) {
            assert forall|j: int| 0 <= j < c.len() implies visited(m, #[trigger] c[j]) by {
                assert(visited(m1, c[j]));
            }
            assert(visited_cycle(g, m, c));
        }
    }
}

/// Marking a `Visiting` helper whose callees are all visited as `Visited`
/// keeps the visited part closed and acyclic.
proof fn lemma_finish_keeps(g: Seq<(Seq<char>, KeyMap<()>)>, m: Map<Seq<char>, DfsMark>, u: Seq<char>)
    requires
        visited_closed(g, m),
        no_visited_cycle(g, m),
        m.contains_key(u),
        m[u] == DfsMark::Visiting,
        forall|s: Seq<char>| #[trigger] calls(g, u, s) ==> visited(m, s),
    ensures
        visited_closed(g, m.insert(u, DfsMark::Visited)),
        no_visited_cycle(g, m.insert(u, DfsMark::Visited)),
{
    let m2 = m.insert(u, DfsMark::Visited);
    assert forall|k: Seq<char>, s: Seq<char>| visited(m2, k) && #[trigger] calls(g, k, s) implies visited(m2, s) by {
        if k != u {
            assert(visited(m, k));
        }
        assert(visited(m, s));
    }
    assert forall|c: Seq<Seq<char>>| !#[trigger] visited_cycle(g, m2, c) by {
        if visited_cycle(g, m2, c) {
            if exists|j: int| 0 <= j < c.len() && c[j] == u {
                let j = choose|j: int| 0 <= j < c.len() && c[j] == u;
                let p = if j == 0 { c.len() - 2 } else { j - 1 };
                assert(linked(g, c, p));
                assert(c[p + 1] == u);
                assert(visited(m2, c[p]));
                if c[p] == u {
                    assert(calls(g, u, u));
                } else {
                    assert(visited(m, c[p]));
                    assert(calls(g, c[p], u));
                }
            } else {
                assert forall|j: int| 0 <= j < c.len() implies visited(m, #[trigger] c[j]) by {
                    assert(visited(m2, c[j]));
                }
                assert(visited_cycle(g, m, c));
            }
        }
    }
}

/// With enough fuel, a walk from an unmarked helper that finds no cycle
/// leaves it visited, and keeps the visited part closed and acyclic.
proof fn lemma_visit_complete(
    g: Seq<(Seq<char>, KeyMap<()>)>,
    node: Seq<char>,
    marks: Map<Seq<char>, DfsMark>,
    path: Seq<Seq<char>>,
    fuel: nat,
)
    requires
        !marks.contains_key(node),
        fuel > unvisited(g, marks),
        visited_closed(g, marks),
        no_visited_cycle(g, marks),
    ensures
        dfs_visit(g, node, marks, path, fuel) matches DfsOutcome::Done(m) ==> {
            &&& keeps_marks(marks, m)
            &&& visited(m, node)
            &&& visited_closed(g, m)
            &&& no_visited_cycle(g, m)
        },
    decreases fuel, 1nat, 0nat,
{
    let m1 = marks.insert(node, DfsMark::Visiting);
    lemma_start_keeps(g, marks, node);
    if callees(g, node).len() > 0 {
        assert(assoc_get(g, node) is Some);
        lemma_declared_key(g, node);
        lemma_unvisited_drop(g, marks, m1, node);
    }
    lemma_scan_complete(g, node, 0, m1, path.push(node), fuel);
    if let DfsOutcome::Done(m) = dfs_scan(g, node, 0, m1, path.push(node), fuel) {
        assert forall|k: Seq<char>| #[trigger] marks.contains_key(k) implies m.contains_key(k) && m[k] == marks[k] by {
            assert(m1.contains_key(k) && k != node);
        }
    }
}

proof fn lemma_scan_complete(
    g: Seq<(Seq<char>, KeyMap<()>)>,
    node: Seq<char>,
    i: nat,
    marks: Map<Seq<char>, DfsMark>,
    path: Seq<Seq<char>>,
    fuel: nat,
)
    requires
        marks.contains_key(node),
        marks[node] == DfsMark::Visiting,
        fuel > 0,
        i < callees(g, node).len() ==> fuel > unvisited(g, marks) + 1,
        forall|j: int| 0 <= j < i && j < callees(g, node).len() ==> visited(marks, #[trigger] callees(g, node)[j]),
        visited_closed(g, marks),
        no_visited_cycle(g, marks),
    ensures
        dfs_scan(g, node, i, marks, path, fuel) matches DfsOutcome::Done(m) ==> {
            &&& forall|k: Seq<char>| #[trigger] marks.contains_key(k) && k != node ==> m.contains_key(k) && m[k] == marks[k]
            &&& visited(m, node)
            &&& visited_closed(g, m)
            &&& no_visited_cycle(g, m)
        },
    decreases fuel, 0nat, callees(g, node).len() - i,
{
    let cs = callees(g, node);
    if i >= cs.len() {
        assert forall|s: Seq<char>| #[trigger] calls(g, node, s) implies visited(marks, s) by {
            let j = choose|j: int| 0 <= j < cs.len() && cs[j] == s;
            assert(visited(marks, cs[j]));
        }
        lemma_finish_keeps(g, marks, node);
    } else {
        let next = cs[i as int];
        if marks.contains_key(next) {
            if marks[next] != DfsMark::Visiting {
                lemma_scan_complete(g, node, i + 1, marks, path, fuel);
            }
        } else {
            lemma_visit_complete(g, next, marks, path, (fuel - 1) as nat);
            if let DfsOutcome::Done(m) = dfs_visit(g, next, marks, path, (fuel - 1) as nat) {
                assert(marks.dom().subset_of(m.dom())) by {
                    assert forall|k: Seq<char>| marks.dom().contains(k) implies m.dom().contains(k) by {
                        assert(marks.contains_key(k));
                    }
                }
                lemma_unvisited_mono(g, marks, m);
                assert forall|j: int| 0 <= j < i + 1 && j < cs.len() implies visited(m, #[trigger] cs[j]) by {
                    if j < i {
                        assert(visited(marks, cs[j]));
                        assert(marks.contains_key(cs[j]));
                    }
                }
                assert(marks.contains_key(node));
                lemma_scan_complete(g, node, i + 1, m, path, fuel);
                if let DfsOutcome::Done(m2) = dfs_scan(g, node, i + 1, m, path, fuel) {
                    assert forall|k: Seq<char>| #[trigger] marks.contains_key(k) && k != node implies m2.contains_key(k) && m2[k] == marks[k] by {
                        assert(m.contains_key(k));
                    }
                }
            }
        }
    }
}

/// Walks from every declared helper that find no cycle leave every declared
/// helper visited, with the visited part closed and acyclic.
proof fn lemma_all_complete(g: Seq<(Seq<char>, KeyMap<()>)>, i: nat, marks: Map<Seq<char>, DfsMark>)
    requires
        visited_closed(g, marks),
        no_visited_cycle(g, marks),
        forall|k: Seq<char>| #[trigger] marks.contains_key(k) ==> marks[k] == DfsMark::Visited,
    ensures
        dfs_all(g, i, marks) matches DfsOutcome::Done(m) ==> {
            &&& keeps_marks(marks, m)
            &&& forall|j: int| i <= j < g.len() ==> #[trigger] m.contains_key(g[j].0)
            &&& forall|k: Seq<char>| #[trigger] m.contains_key(k) ==> m[k] == DfsMark::Visited
            &&& visited_closed(g, m)
            &&& no_visited_cycle(g, m)
        },
    decreases g.len() - i,
{
    if i < g.len() {
        let n = g[i as int].0;
        if marks.contains_key(n) {
            lemma_all_complete(g, i + 1, marks);
        } else {
            let fuel = unvisited(g, marks) + 1;
            lemma_visit_complete(g, n, marks, Seq::empty(), fuel);
            lemma_visit_sound(g, n, marks, Seq::empty(), fuel);
            if let DfsOutcome::Done(m) = dfs_visit(g, n, marks, Seq::empty(), fuel) {
                assert forall|k: Seq<char>| #[trigger] m.contains_key(k) implies m[k] == DfsMark::Visited by {
                    if m[k] == DfsMark::Visiting {
                        assert(marks.contains_key(k));
                    }
                }
                lemma_all_complete(g, i + 1, m);
            }
        }
    }
}

/// Walks from every declared helper find a cycle whenever there is one.
proof fn lemma_cycle_detected(g: Seq<(Seq<char>, KeyMap<()>)>)
    ensures
        dfs_all(g, 0, Map::empty()) is Done ==> !has_call_cycle(g),
{
    let e = Map::<Seq<char>, DfsMark>::empty();
    assert forall|c: Seq<Seq<char>>| !#[trigger] visited_cycle(g, e, c) by {
        if visited_cycle(g, e, c) {
            assert(visited(e, c[0]));
        }
    }
    lemma_all_complete(g, 0, e);
    if let DfsOutcome::Done(m) = dfs_all(g, 0, e) {
        if has_call_cycle(g) {
            let (f, c) = choose|f: Seq<char>, c: Seq<Seq<char>>| is_call_cycle(g, f, c);
            assert forall|j: int| 0 <= j < c.len() implies visited(m, #[trigger] c[j]) by {
                let jj = if j == c.len() - 1 { 0 } else { j };
                assert(c[jj] == c[j]);
                assert(linked(g, c, jj));
                assert(callees(g, c[jj]).len() > 0);
                assert(assoc_get(g, c[jj]) is Some);
                lemma_assoc_index(g, c[jj]);
                let k = assoc_index_of(g, c[jj]);
                assert(m.contains_key(g[k].0));
            }
            assert(visited_cycle(g, m, c));
        }
    }
}

/// A declared helper is among the graph's keys.
proof fn lemma_declared_key(g: Seq<(Seq<char>, KeyMap<()>)>, node: Seq<char>)
    requires
        assoc_get(g, node) is Some,
    ensures
        graph_keys(g).contains(node),
{
    lemma_assoc_index(g, node);
    let i = assoc_index_of(g, node);
    assert(g.map_values(|p: (Seq<char>, KeyMap<()>)| p.0)[i] == node);
}

spec fn assoc_index_of(g: Seq<(Seq<char>, KeyMap<()>)>, node: Seq<char>) -> int {
    crate::keymap::assoc_index(g, node)->0
}

/// Record mark `m` for `name`.
fn set_mark(marks: &mut KeyMap<DfsMark>, name: &String, m: DfsMark)
    ensures
        marks_map(*final(marks)) == marks_map(*old(marks)).insert(name@, m),
{
    let ghost before = marks.pairs();
    marks.ascending_now();
    marks.insert(name.clone(), m);
    proof {
        assert forall|k: Seq<char>| #[trigger] marks.lookup(k) == (if k == name@ { Some(m) } else { old(marks).lookup(k) }) by {
            lemma_insert_get(before, name@, m, k);
        }
        assert(marks_map(*marks) =~= marks_map(*old(marks)).insert(name@, m));
    }
}

/// The cycle closed by meeting `next` again on `path`.
pub(crate) fn cycle_through(path: &Vec<String>, next: &String) -> (c: Vec<String>)
    ensures
        names_view(c@) == cycle_from(names_view(path@), next@),
{
    let ghost pv = names_view(path@);
    let mut start: usize = 0;
    while start < path.len() && !same_text(path[start].as_str(), next.as_str())
        invariant
            start <= path@.len(),
            pv == names_view(path@),
            forall|j: int| 0 <= j < start ==> pv[j] != next@,
        decreases path@.len() - start,
    {
        start = start + 1;
    }
    let found = start < path.len();
    assert(found ==> pv[start as int] == next@);
    proof {
        pv.index_of_first_ensures(next@);
        if found {
            assert(pv.contains(next@));
            let p = pv.index_of_first(next@)->0;
            assert(p == start) by {
                if p < start {
                    assert(pv[p] != next@);
                }
                if p > start {
                    assert(pv[start as int] == next@);
                }
            }
        } else {
            assert(!pv.contains(next@));
        }
    }
    if !found {
        start = 0;
    }
    let mut c: Vec<String> = Vec::new();
    let mut j: usize = start;
    while j < path.len()
        invariant
            start <= j <= path@.len(),
            pv == names_view(path@),
            names_view(c@) == pv.subrange(start as int, j as int),
        decreases path@.len() - j,
    {
        let ghost before = c@;
        c.push(path[j].clone());
        proof {
            assert(c@ == before.push(path@[j as int]));
            assert(names_view(c@) =~= names_view(before).push(pv[j as int]));
            assert(names_view(c@) =~= pv.subrange(start as int, j + 1));
        }
        j = j + 1;
    }
    let ghost before = c@;
    c.push(next.clone());
    proof {
        assert(c@ == before.push(*next));
        assert(names_view(c@) =~= names_view(before).push(next@));
        assert(names_view(c@) =~= pv.subrange(start as int, pv.len() as int).push(next@));
    }
    c
}

/// The walk from `node`, which is not yet marked; `fuel` exceeds the number
/// of declared helpers not yet marked.
fn dfs_cycle(
    node: &String,
    call_graph: &KeyMap<KeyMap<()>>,
    marks: &mut KeyMap<DfsMark>,
    path: &mut Vec<String>,
    Ghost(fuel): Ghost<nat>,
) -> (r: Result<(), FiniteDecisionLowerError>)
    requires
        !marks_map(*old(marks)).contains_key(node@),
        fuel > unvisited(call_graph.pairs(), marks_map(*old(marks))),
    ensures
        reports(r, marks_map(*final(marks)), dfs_visit(call_graph.pairs(), node@, marks_map(*old(marks)), names_view(old(path)@), fuel)),
        r is Ok ==> names_view(final(path)@) == names_view(old(path)@),
        r is Ok ==> marks_map(*old(marks)).dom().insert(node@).subset_of(marks_map(*final(marks)).dom()),
    decreases fuel, 1nat,
{
    let ghost g = call_graph.pairs();
    let ghost m0 = marks_map(*marks);
    let ghost p0 = names_view(path@);
    set_mark(marks, node, DfsMark::Visiting);
    path.push(node.clone());
    proof {
        assert(names_view(path@) =~= p0.push(node@));
    }
    let ghost m1 = marks_map(*marks);
    let ghost target = dfs_visit(g, node@, m0, p0, fuel);
    assert(target == dfs_scan(g, node@, 0, m1, p0.push(node@), fuel));
    match call_graph.get(node.as_str()) {
        Some(callee_map) => {
            proof {
                lemma_declared_key(g, node@);
            }
            let ghost nbrs = callees(g, node@);
            assert(nbrs == callee_map.pairs().map_values(|p: (Seq<char>, ())| p.0));
            let mut i: usize = 0;
            while i < callee_map.len()
                invariant
                    i <= nbrs.len(),
                    nbrs.len() == callee_map.pairs().len(),
                    nbrs == callees(g, node@),
                    nbrs == callee_map.pairs().map_values(|p: (Seq<char>, ())| p.0),
                    g == call_graph.pairs(),
                    m0 == marks_map(*old(marks)),
                    p0 == names_view(old(path)@),
                    target == dfs_visit(g, node@, m0, p0, fuel),
                    graph_keys(g).contains(node@),
                    !m0.contains_key(node@),
                    fuel > unvisited(g, m0),
                    m1.dom().subset_of(marks_map(*marks).dom()),
                    m1 == m0.insert(node@, DfsMark::Visiting),
                    names_view(path@) == p0.push(node@),
                    dfs_scan(g, node@, i as nat, marks_map(*marks), p0.push(node@), fuel) == target,
                decreases nbrs.len() - i,
            {
                let next = callee_map.key_at(i);
                assert(next@ == nbrs[i as int]);
                match marks.get(next.as_str()) {
                    Some(DfsMark::Visiting) => {
                        assert(marks_map(*marks).contains_key(next@));
                        assert(marks_map(*marks)[next@] == DfsMark::Visiting);
                        assert(target == DfsOutcome::Cycle(node@, cycle_from(p0.push(node@), next@)));
                        let cycle = cycle_through(path, next);
                        return Err(FiniteDecisionLowerError::FunctionCycle { func: node.clone(), cycle });
                    },
                    Some(DfsMark::Visited) => {
                        assert(marks_map(*marks).contains_key(next@));
                        assert(marks_map(*marks)[next@] == DfsMark::Visited);
                    },
                    None => {
                        assert(!marks_map(*marks).contains_key(next@));
                        proof {
                            lemma_unvisited_drop(g, m0, marks_map(*marks), node@);
                        }
                        let ghost mb = marks_map(*marks);
                        match dfs_cycle(next, call_graph, marks, path, Ghost((fuel - 1) as nat)) {
                            Ok(()) => {
                                proof {
                                    assert(m1.dom().subset_of(marks_map(*marks).dom())) by {
                                        assert(mb.dom().subset_of(marks_map(*marks).dom()));
                                    }
                                }
                            },
                            Err(e) => {
                                return Err(e);
                            },
                        }
                    },
                }
                i = i + 1;
            }
        },
        None => {
            assert(callees(g, node@).len() == 0);
        },
    }
    let ghost full = path@;
    path.pop();
    proof {
        assert(path@ == full.drop_last());
        assert(names_view(full) == p0.push(node@));
        assert(names_view(path@) =~= p0) by {
            assert forall|j: int| 0 <= j < p0.len() implies names_view(path@)[j] == p0[j] by {
                assert(names_view(full)[j] == p0.push(node@)[j]);
            }
        }
    }
    let ghost before_done = marks_map(*marks);
    set_mark(marks, node, DfsMark::Visited);
    proof {
        assert(m0.dom().insert(node@).subset_of(marks_map(*marks).dom())) by {
            assert(m1.dom().subset_of(before_done.dom()));
        }
    }
    Ok(())
}

/// Look for recursion among the helpers of `call_graph`, walking from each
/// helper in ascending order of names. Any reported cycle is a real one.
pub fn detect_cycles(call_graph: &KeyMap<KeyMap<()>>) -> (r: Result<(), FiniteDecisionLowerError>)
    ensures
        match dfs_all(call_graph.pairs(), 0, Map::empty()) {
            DfsOutcome::Done(_) => r is Ok,
            DfsOutcome::Cycle(f, c) => r matches Err(FiniteDecisionLowerError::FunctionCycle { func, cycle }) && func@ == f
                && names_view(cycle@) == c,
        },
        r matches Err(FiniteDecisionLowerError::FunctionCycle { func, cycle }) ==> is_call_cycle(
            call_graph.pairs(),
            func@,
            names_view(cycle@),
        ),
        r is Err ==> r matches Err(FiniteDecisionLowerError::FunctionCycle { .. }),
        r is Ok <==> !has_call_cycle(call_graph.pairs()),
{
    let ghost g = call_graph.pairs();
    let mut marks: KeyMap<DfsMark> = KeyMap::new();
    let mut path: Vec<String> = Vec::new();
    proof {
        assert(marks_map(marks) =~= Map::<Seq<char>, DfsMark>::empty());
        lemma_all_sound(g, 0, Map::empty());
    }
    let mut i: usize = 0;
    while i < call_graph.len()
        invariant
            i <= g.len(),
            g == call_graph.pairs(),
            names_view(path@) == Seq::<Seq<char>>::empty(),
            dfs_all(g, i as nat, marks_map(marks)) == dfs_all(g, 0, Map::empty()),
        decreases g.len() - i,
    {
        let start = call_graph.key_at(i);
        if !marks.contains_key(start.as_str()) {
            let ghost mb = marks_map(marks);
            assert(start@ == g[i as int].0);
            assert(!mb.contains_key(start@));
            match dfs_cycle(start, call_graph, &mut marks, &mut path, Ghost(unvisited(g, mb) + 1)) {
                Ok(()) => {},
                Err(e) => {
                    assert(dfs_all(g, i as nat, mb) == dfs_visit(g, start@, mb, Seq::empty(), unvisited(g, mb) + 1));
                    proof {
                        lemma_all_sound(g, 0, Map::empty());
                    }
                    return Err(e);
                },
            }
        }
        i = i + 1;
    }
    proof {
        lemma_cycle_detected(g);
    }
    Ok(())
}

/// The body of the last helper named `n`, if any: a later declaration of a
/// name replaces an earlier one.
pub open spec fn helper_body(fs: Seq<FiniteDecisionFunction>, n: Seq<char>) -> Option<L3ExprV2>
    decreases fs.len(),
{
    if fs.len() == 0 {
        None
    } else if fs.last().name@ == n {
        Some(fs.last().body)
    } else {
        helper_body(fs.drop_last(), n)
    }
}

/// The body of helper `a` calls helper `b`.
pub open spec fn helper_calls(fs: Seq<FiniteDecisionFunction>, a: Seq<char>, b: Seq<char>) -> bool {
    helper_body(fs, a) matches Some(body) && calls_in(body).contains(b)
}

/// The `j`-th step of `c` is a helper call.
pub open spec fn helper_linked(fs: Seq<FiniteDecisionFunction>, c: Seq<Seq<char>>, j: int) -> bool {
    helper_calls(fs, c[j], c[j + 1])
}

/// `c` is a chain of helper calls that returns to where it started, and its
/// last call is made by `func`.
pub open spec fn is_helper_cycle(fs: Seq<FiniteDecisionFunction>, func: Seq<char>, c: Seq<Seq<char>>) -> bool {
    &&& c.len() >= 2
    &&& c[0] == c.last()
    &&& c[c.len() - 2] == func
    &&& forall|j: int| 0 <= j < c.len() - 1 ==> #[trigger] helper_linked(fs, c, j)
}

/// Some helper reaches itself through calls.
pub open spec fn has_helper_cycle(fs: Seq<FiniteDecisionFunction>) -> bool {
    exists|f: Seq<char>, c: Seq<Seq<char>>| is_helper_cycle(fs, f, c)
}

/// `g` is the call graph of helpers `fs`: each declared helper's name, in
/// ascending order, with the names of the helpers its body calls.
pub open spec fn is_helper_graph(g: Seq<(Seq<char>, KeyMap<()>)>, fs: Seq<FiniteDecisionFunction>) -> bool {
    &&& crate::keymap::keys_ascending(g)
    &&& forall|n: Seq<char>| #[trigger] assoc_get(g, n) is Some <==> helper_body(fs, n) is Some
    &&& forall|n: Seq<char>| #[trigger] assoc_get(g, n) is Some ==> names_of(assoc_get(g, n)->0) == calls_in(
        helper_body(fs, n)->0,
    )
}

/// `r` is what the depth-first walk over `g` ends with.
pub open spec fn walk_reports(r: Result<(), FiniteDecisionLowerError>, g: Seq<(Seq<char>, KeyMap<()>)>) -> bool {
    match dfs_all(g, 0, Map::empty()) {
        DfsOutcome::Done(_) => r is Ok,
        DfsOutcome::Cycle(f, c) => r matches Err(FiniteDecisionLowerError::FunctionCycle { func, cycle }) && func@ == f
            && names_view(cycle@) == c,
    }
}

/// The call graph of the helpers: each helper's name with the names of the
/// helpers its body calls.
pub fn helper_call_graph(functions: &Vec<FiniteDecisionFunction>) -> (g: KeyMap<KeyMap<()>>)
    ensures
        is_helper_graph(g.pairs(), functions@),
        forall|n: Seq<char>| #[trigger] assoc_get(g.pairs(), n) is Some <==> helper_body(functions@, n) is Some,
        forall|n: Seq<char>| #[trigger] assoc_get(g.pairs(), n) is Some ==> names_of(assoc_get(g.pairs(), n)->0)
            == calls_in(helper_body(functions@, n)->0),
{
    let ghost fs = functions@;
    let mut g: KeyMap<KeyMap<()>> = KeyMap::new();
    let mut i: usize = 0;
    while i < functions.len()
        invariant
            i <= fs.len(),
            fs == functions@,
            forall|n: Seq<char>| #[trigger] assoc_get(g.pairs(), n) is Some <==> helper_body(fs.subrange(0, i as int), n) is Some,
            forall|n: Seq<char>| #[trigger] assoc_get(g.pairs(), n) is Some ==> names_of(assoc_get(g.pairs(), n)->0) == calls_in(
                helper_body(fs.subrange(0, i as int), n)->0,
            ),
        decreases fs.len() - i,
    {
        let mut calls: KeyMap<()> = KeyMap::new();
        proof {
            assert(names_of(calls) =~= Set::<Seq<char>>::empty());
        }
        collect_function_calls(&functions[i].body, &mut calls);
        let ghost before = g.pairs();
        let ghost name = functions[i as int].name@;
        g.ascending_now();
        g.insert(functions[i].name.clone(), calls);
        proof {
            let pre = fs.subrange(0, i + 1);
            assert(pre.drop_last() =~= fs.subrange(0, i as int));
            assert(pre.last() == fs[i as int]);
            assert(names_of(calls) =~= calls_in(fs[i as int].body));
            assert forall|n: Seq<char>| #[trigger] assoc_get(g.pairs(), n) is Some <==> helper_body(pre, n) is Some by {
                lemma_insert_get(before, name, calls, n);
            }
            assert forall|n: Seq<char>| #[trigger] assoc_get(g.pairs(), n) is Some implies names_of(assoc_get(g.pairs(), n)->0)
                == calls_in(helper_body(pre, n)->0) by {
                lemma_insert_get(before, name, calls, n);
            }
        }
        i = i + 1;
    }
    proof {
        assert(fs.subrange(0, fs.len() as int) =~= fs);
        crate::keymap::lemma_pairs_ascending(g);
    }
    g
}

/// A graph call is exactly a helper call.
proof fn lemma_graph_calls(g: Seq<(Seq<char>, KeyMap<()>)>, fs: Seq<FiniteDecisionFunction>, a: Seq<char>, b: Seq<char>)
    requires
        assoc_get(g, a) is Some <==> helper_body(fs, a) is Some,
        assoc_get(g, a) is Some ==> names_of(assoc_get(g, a)->0) == calls_in(helper_body(fs, a)->0),
    ensures
        calls(g, a, b) <==> helper_calls(fs, a, b),
{
    if let Some(m) = assoc_get(g, a) {
        let ks = m.pairs().map_values(|p: (Seq<char>, ())| p.0);
        lemma_assoc_index(m.pairs(), b);
        if ks.contains(b) {
            let i = choose|i: int| 0 <= i < ks.len() && ks[i] == b;
            assert(m.pairs()[i].0 == b);
            assert(names_of(m).contains(b));
        }
        if names_of(m).contains(b) {
            let i = crate::keymap::assoc_index(m.pairs(), b)->0;
            assert(ks[i] == b);
        }
    }
}

/// Reject recursion among the helpers, directly or through one another:
/// the result is what the depth-first walk over the helpers' call graph
/// ends with, walking from each helper in ascending order of names and
/// through its callees in ascending order (the graph `helper_call_graph`
/// builds, and any other graph of the same helpers, which has its shape).
pub fn check_helper_recursion(functions: &Vec<FiniteDecisionFunction>) -> (r: Result<(), FiniteDecisionLowerError>)
    ensures
        exists|g: Seq<(Seq<char>, KeyMap<()>)>| is_helper_graph(g, functions@),
        forall|g: Seq<(Seq<char>, KeyMap<()>)>| #[trigger] is_helper_graph(g, functions@) ==> walk_reports(r, g),
        r is Ok <==> !has_helper_cycle(functions@),
        r matches Err(FiniteDecisionLowerError::FunctionCycle { func, cycle }) ==> is_helper_cycle(
            functions@,
            func@,
            names_view(cycle@),
        ),
        r is Err ==> r matches Err(FiniteDecisionLowerError::FunctionCycle { .. }),
{
    let g = helper_call_graph(functions);
    let ghost gp = g.pairs();
    let ghost fs = functions@;
    proof {
        assert forall|a: Seq<char>, b: Seq<char>| #[trigger] calls(gp, a, b) <==> helper_calls(fs, a, b) by {
            assert(assoc_get(gp, a) is Some <==> helper_body(fs, a) is Some);
            lemma_graph_calls(gp, fs, a, b);
        }
        assert forall|f: Seq<char>, c: Seq<Seq<char>>| is_call_cycle(gp, f, c) <==> #[trigger] is_helper_cycle(fs, f, c) by {
            if is_call_cycle(gp, f, c) {
                assert forall|j: int| 0 <= j < c.len() - 1 implies #[trigger] helper_linked(fs, c, j) by {
                    assert(linked(gp, c, j));
                }
            }
            if is_helper_cycle(fs, f, c) {
                assert forall|j: int| 0 <= j < c.len() - 1 implies #[trigger] linked(gp, c, j) by {
                    assert(helper_linked(fs, c, j));
                }
            }
        }
        if has_helper_cycle(fs) {
            let (f, c) = choose|f: Seq<char>, c: Seq<Seq<char>>| is_helper_cycle(fs, f, c);
            assert(is_call_cycle(gp, f, c));
        }
        if has_call_cycle(gp) {
            let (f, c) = choose|f: Seq<char>, c: Seq<Seq<char>>| is_call_cycle(gp, f, c);
            assert(is_helper_cycle(fs, f, c));
        }
    }
    let r = detect_cycles(&g);
    proof {
        assert(is_helper_graph(gp, fs) && walk_reports(r, gp));
        assert forall|g2: Seq<(Seq<char>, KeyMap<()>)>| #[trigger] is_helper_graph(g2, fs) implies walk_reports(r, g2) by {
            lemma_helper_walk_determined(gp, g2, fs);
        }
    }
    r
}

/// The keys of an association sequence, in order.
pub open spec fn key_list<V>(s: Seq<(Seq<char>, V)>) -> Seq<Seq<char>> {
    s.map_values(|p: (Seq<char>, V)| p.0)
}

/// Two graphs list the same helpers in the same order, each with the same
/// callees in the same order.
pub open spec fn same_shape(g1: Seq<(Seq<char>, KeyMap<()>)>, g2: Seq<(Seq<char>, KeyMap<()>)>) -> bool {
    &&& key_list(g1) == key_list(g2)
    &&& forall|n: Seq<char>| #[trigger] callees(g1, n) == callees(g2, n)
}

proof fn lemma_sorted_unique(a: Seq<Seq<char>>, b: Seq<Seq<char>>)
    requires
        forall|i: int, j: int| 0 <= i < j < a.len() ==> crate::keymap::key_lt(#[trigger] a[i], #[trigger] a[j]),
        forall|i: int, j: int| 0 <= i < j < b.len() ==> crate::keymap::key_lt(#[trigger] b[i], #[trigger] b[j]),
        forall|x: Seq<char>| #![trigger a.contains(x)] #![trigger b.contains(x)] a.contains(x) == b.contains(x),
    ensures
        a == b,
    decreases a.len(),
{
    if a.len() == 0 {
        if b.len() > 0 {
            assert(b.contains(b[0]));
            assert(a.contains(b[0]));
        }
        assert(a =~= b);
    } else {
        assert(a.contains(a[0]));
        let j = choose|j: int| 0 <= j < b.len() && b[j] == a[0];
        assert(b.contains(b[0]));
        let i = choose|i: int| 0 <= i < a.len() && a[i] == b[0];
        crate::keymap::lemma_key_lt_facts(a[0], b[0], a[0]);
        if j > 0 {
            assert(crate::keymap::key_lt(b[0], b[j]));
            if i > 0 {
                assert(crate::keymap::key_lt(a[0], a[i]));
            }
        }
        assert(a[0] == b[0]);
        let a1 = a.drop_first();
        let b1 = b.drop_first();
        assert forall|x: Seq<char>| #[trigger] a1.contains(x) == b1.contains(x) by {
            if a1.contains(x) {
                let k = choose|k: int| 0 <= k < a1.len() && a1[k] == x;
                assert(a[k + 1] == x);
                crate::keymap::lemma_key_lt_facts(a[0], x, x);
                assert(b.contains(x));
                let m = choose|m: int| 0 <= m < b.len() && b[m] == x;
                if m == 0 {
                    assert(crate::keymap::key_lt(a[0], a[k + 1]));
                }
                assert(b1[m - 1] == x);
            }
            if b1.contains(x) {
                let k = choose|k: int| 0 <= k < b1.len() && b1[k] == x;
                assert(b[k + 1] == x);
                crate::keymap::lemma_key_lt_facts(b[0], x, x);
                assert(a.contains(x));
                let m = choose|m: int| 0 <= m < a.len() && a[m] == x;
                if m == 0 {
                    assert(crate::keymap::key_lt(b[0], b[k + 1]));
                }
                assert(a1[m - 1] == x);
            }
        }
        lemma_sorted_unique(a1, b1);
        assert(a =~= b) by {
            assert forall|k: int| 0 <= k < a.len() implies a[k] == b[k] by {
                if k > 0 {
                    assert(a[k] == a1[k - 1]);
                    assert(b[k] == b1[k - 1]);
                }
            }
        }
    }
}

proof fn lemma_keys_sorted<V>(s: Seq<(Seq<char>, V)>)
    requires
        crate::keymap::keys_ascending(s),
    ensures
        forall|i: int, j: int| 0 <= i < j < key_list(s).len() ==> crate::keymap::key_lt(
            #[trigger] key_list(s)[i],
            #[trigger] key_list(s)[j],
        ),
        forall|x: Seq<char>| #[trigger] key_list(s).contains(x) == (assoc_get(s, x) is Some),
{
    let ks = key_list(s);
    assert forall|i: int, j: int| 0 <= i < j < ks.len() implies crate::keymap::key_lt(#[trigger] ks[i], #[trigger] ks[j]) by {
        assert(crate::keymap::key_lt(s[i].0, s[j].0));
    }
    assert forall|x: Seq<char>| #[trigger] ks.contains(x) == (assoc_get(s, x) is Some) by {
        lemma_assoc_index(s, x);
        if ks.contains(x) {
            let k = choose|k: int| 0 <= k < ks.len() && ks[k] == x;
            assert(s[k].0 == x);
        }
        if assoc_get(s, x) is Some {
            let k = crate::keymap::assoc_index(s, x)->0;
            assert(ks[k] == x);
        }
    }
}

/// The call graph of a list of helpers is determined by them: any two
/// graphs of the same helpers have the same shape.
pub proof fn lemma_helper_graph_unique(g1: Seq<(Seq<char>, KeyMap<()>)>, g2: Seq<(Seq<char>, KeyMap<()>)>, fs: Seq<FiniteDecisionFunction>)
    requires
        is_helper_graph(g1, fs),
        is_helper_graph(g2, fs),
    ensures
        same_shape(g1, g2),
{
    lemma_keys_sorted(g1);
    lemma_keys_sorted(g2);
    let k1 = key_list(g1);
    let k2 = key_list(g2);
    assert forall|x: Seq<char>| #[trigger] k1.contains(x) == k2.contains(x) by {
        assert(assoc_get(g1, x) is Some <==> helper_body(fs, x) is Some);
        assert(assoc_get(g2, x) is Some <==> helper_body(fs, x) is Some);
    }
    lemma_sorted_unique(k1, k2);
    assert forall|n: Seq<char>| #[trigger] callees(g1, n) == callees(g2, n) by {
        assert(assoc_get(g1, n) is Some <==> helper_body(fs, n) is Some);
        assert(assoc_get(g2, n) is Some <==> helper_body(fs, n) is Some);
        if let Some(m1) = assoc_get(g1, n) {
            let m2 = assoc_get(g2, n)->0;
            crate::keymap::lemma_pairs_ascending(m1);
            crate::keymap::lemma_pairs_ascending(m2);
            lemma_keys_sorted(m1.pairs());
            lemma_keys_sorted(m2.pairs());
            let c1 = key_list(m1.pairs());
            let c2 = key_list(m2.pairs());
            assert forall|x: Seq<char>| #[trigger] c1.contains(x) == c2.contains(x) by {
                assert(names_of(m1).contains(x) == (assoc_get(m1.pairs(), x) is Some));
                assert(names_of(m2).contains(x) == (assoc_get(m2.pairs(), x) is Some));
            }
            lemma_sorted_unique(c1, c2);
        }
    }
}

proof fn lemma_visit_same(
    g1: Seq<(Seq<char>, KeyMap<()>)>,
    g2: Seq<(Seq<char>, KeyMap<()>)>,
    node: Seq<char>,
    marks: Map<Seq<char>, DfsMark>,
    path: Seq<Seq<char>>,
    fuel: nat,
)
    requires
        same_shape(g1, g2),
    ensures
        dfs_visit(g1, node, marks, path, fuel) == dfs_visit(g2, node, marks, path, fuel),
    decreases fuel, 1nat, 0nat,
{
    if fuel > 0 {
        lemma_scan_same(g1, g2, node, 0, marks.insert(node, DfsMark::Visiting), path.push(node), fuel);
    }
}

proof fn lemma_scan_same(
    g1: Seq<(Seq<char>, KeyMap<()>)>,
    g2: Seq<(Seq<char>, KeyMap<()>)>,
    node: Seq<char>,
    i: nat,
    marks: Map<Seq<char>, DfsMark>,
    path: Seq<Seq<char>>,
    fuel: nat,
)
    requires
        same_shape(g1, g2),
    ensures
        dfs_scan(g1, node, i, marks, path, fuel) == dfs_scan(g2, node, i, marks, path, fuel),
    decreases fuel, 0nat, callees(g1, node).len() - i,
{
    assert(callees(g1, node) == callees(g2, node));
    if i < callees(g1, node).len() {
        let next = callees(g1, node)[i as int];
        if marks.contains_key(next) {
            if marks[next] != DfsMark::Visiting {
                lemma_scan_same(g1, g2, node, i + 1, marks, path, fuel);
            }
        } else if fuel > 0 {
            lemma_visit_same(g1, g2, next, marks, path, (fuel - 1) as nat);
            if let DfsOutcome::Done(m) = dfs_visit(g1, next, marks, path, (fuel - 1) as nat) {
                lemma_scan_same(g1, g2, node, i + 1, m, path, fuel);
            }
        }
    }
}

proof fn lemma_all_same(g1: Seq<(Seq<char>, KeyMap<()>)>, g2: Seq<(Seq<char>, KeyMap<()>)>, i: nat, marks: Map<Seq<char>, DfsMark>)
    requires
        same_shape(g1, g2),
    ensures
        dfs_all(g1, i, marks) == dfs_all(g2, i, marks),
    decreases g1.len() - i,
{
    let k1 = key_list(g1);
    let k2 = key_list(g2);
    assert(g1.len() == k1.len() && g2.len() == k2.len());
    assert(graph_keys(g1) == graph_keys(g2));
    if i < g1.len() {
        assert(g1[i as int].0 == k1[i as int]);
        assert(g2[i as int].0 == k2[i as int]);
        let n = g1[i as int].0;
        if marks.contains_key(n) {
            lemma_all_same(g1, g2, i + 1, marks);
        } else {
            lemma_visit_same(g1, g2, n, marks, Seq::empty(), unvisited(g1, marks) + 1);
            if let DfsOutcome::Done(m) = dfs_visit(g1, n, marks, Seq::empty(), unvisited(g1, marks) + 1) {
                lemma_all_same(g1, g2, i + 1, m);
            }
        }
    }
}

/// The walk over the helpers' call graph has one outcome: whichever graph
/// of the same helpers it runs over, it ends the same way.
pub proof fn lemma_helper_walk_determined(
    g1: Seq<(Seq<char>, KeyMap<()>)>,
    g2: Seq<(Seq<char>, KeyMap<()>)>,
    fs: Seq<FiniteDecisionFunction>,
)
    requires
        is_helper_graph(g1, fs),
        is_helper_graph(g2, fs),
    ensures
        dfs_all(g1, 0, Map::empty()) == dfs_all(g2, 0, Map::empty()),
{
    lemma_helper_graph_unique(g1, g2, fs);
    lemma_all_same(g1, g2, 0, Map::empty());
}

} // verus!
