//! Rejection of recursive nominal configs.
//!
//! A config depends on every config that one of its field or variant
//! parameter types names. A depth-first walk over these dependencies, started
//! from each config in declaration order, marks a config `InProgress` while
//! it is on the stack and `Done` afterwards; reaching an `InProgress` config
//! again closes a cycle. Names that are not declared configs count as done.
use vstd::prelude::*;
use vstd::set_lib::lemma_len_subset;

use crate::finite_decision::cycles::{cycle_from, cycle_through, names_view};
use crate::keymap::{assoc_get, lemma_get_mapped, lemma_insert_get, map_entries, KeyMap};
use super::normalize::{body_model, BodyModel};
use super::{L3ConfigBody, L3ConfigDecl, L3LowerError, L3TypeRef};

verus! {

/// The state of a config in the walk.
#[derive(Clone, Copy, Debug, PartialEq, Eq, Structural)]
pub enum ConfigState {
    Unvisited,
    InProgress,
    Done,
}

/// The config a type names, if any.
pub open spec fn type_dep(t: L3TypeRef) -> Seq<Seq<char>> {
    match t {
        L3TypeRef::Config(n) => seq![n@],
        _ => Seq::empty(),
    }
}

/// The configs named by a list of types, in order.
pub open spec fn types_deps(ts: Seq<L3TypeRef>) -> Seq<Seq<char>>
    decreases ts.len(),
{
    if ts.len() == 0 {
        Seq::empty()
    } else {
        types_deps(ts.drop_last()) + type_dep(ts.last())
    }
}

/// The configs named by record field types, in field order.
pub open spec fn record_deps(fields: Seq<(String, L3TypeRef)>) -> Seq<Seq<char>>
    decreases fields.len(),
{
    if fields.len() == 0 {
        Seq::empty()
    } else {
        record_deps(fields.drop_last()) + type_dep(fields.last().1)
    }
}

/// The configs named by variant parameter types, variant by variant.
pub open spec fn sum_deps(variants: Seq<(String, Seq<L3TypeRef>)>) -> Seq<Seq<char>>
    decreases variants.len(),
{
    if variants.len() == 0 {
        Seq::empty()
    } else {
        sum_deps(variants.drop_last()) + types_deps(variants.last().1)
    }
}

/// The configs a config body names, in declaration order, with repeats.
pub open spec fn body_deps(body: BodyModel) -> Seq<Seq<char>> {
    match body {
        BodyModel::Record(fields) => record_deps(fields),
        BodyModel::Sum(variants) => sum_deps(variants),
    }
}

/// The bodies of the configs a map declares, by name.
pub open spec fn configs_model(m: KeyMap<L3ConfigDecl>) -> Seq<(Seq<char>, BodyModel)> {
    map_entries(m.pairs(), |d: L3ConfigDecl| body_model(d.body))
}

/// The configs that the config named `n` depends on (none when `n` is not
/// declared).
pub open spec fn name_deps(cfgs: Seq<(Seq<char>, BodyModel)>, n: Seq<char>) -> Seq<Seq<char>> {
    match assoc_get(cfgs, n) {
        Some(b) => body_deps(b),
        None => Seq::empty(),
    }
}

/// The `j`-th step of `c` is a dependency.
pub open spec fn dep_linked(cfgs: Seq<(Seq<char>, BodyModel)>, c: Seq<Seq<char>>, j: int) -> bool {
    name_deps(cfgs, c[j]).contains(c[j + 1])
}

/// `c` is a chain of dependencies that returns to where it started.
pub open spec fn is_dep_cycle(cfgs: Seq<(Seq<char>, BodyModel)>, c: Seq<Seq<char>>) -> bool {
    &&& c.len() >= 2
    &&& c[0] == c.last()
    &&& forall|j: int| 0 <= j < c.len() - 1 ==> #[trigger] dep_linked(cfgs, c, j)
}

/// How a walk ends: with the states it leaves, or with a cycle.
pub enum ConfigWalk {
    Finished(Map<Seq<char>, ConfigState>),
    Recursive(Seq<Seq<char>>),
}

/// The state of `n`: a name without one counts as done.
pub open spec fn state_of(state: Map<Seq<char>, ConfigState>, n: Seq<char>) -> ConfigState {
    if state.contains_key(n) {
        state[n]
    } else {
        ConfigState::Done
    }
}

/// Number of configs not yet visited.
pub open spec fn unvisited_configs(state: Map<Seq<char>, ConfigState>) -> nat {
    state.dom().filter(|k: Seq<char>| state[k] == ConfigState::Unvisited).len()
}

/// The walk from `name` with `stack` the configs being visited; `fuel`
/// bounds its depth, and with enough of it the bound is never reached.
pub open spec fn config_visit(
    cfgs: Seq<(Seq<char>, BodyModel)>,
    name: Seq<char>,
    state: Map<Seq<char>, ConfigState>,
    stack: Seq<Seq<char>>,
    fuel: nat,
) -> ConfigWalk
    decreases fuel, 1nat, 0nat,
{
    match state_of(state, name) {
        ConfigState::Done => ConfigWalk::Finished(state),
        ConfigState::InProgress => ConfigWalk::Recursive(cycle_from(stack, name)),
        ConfigState::Unvisited => {
            if fuel == 0 {
                ConfigWalk::Finished(state)
            } else {
                config_scan(cfgs, name, 0, state.insert(name, ConfigState::InProgress), stack.push(name), fuel)
            }
        },
    }
}

/// The walk over the dependencies of `name` from the `i`-th on.
pub open spec fn config_scan(
    cfgs: Seq<(Seq<char>, BodyModel)>,
    name: Seq<char>,
    i: nat,
    state: Map<Seq<char>, ConfigState>,
    stack: Seq<Seq<char>>,
    fuel: nat,
) -> ConfigWalk
    decreases fuel, 0nat, name_deps(cfgs, name).len() - i,
{
    if i >= name_deps(cfgs, name).len() {
        ConfigWalk::Finished(state.insert(name, ConfigState::Done))
    } else if fuel == 0 {
        ConfigWalk::Finished(state)
    } else {
        match config_visit(cfgs, name_deps(cfgs, name)[i as int], state, stack, (fuel - 1) as nat) {
            ConfigWalk::Finished(s) => config_scan(cfgs, name, i + 1, s, stack, fuel),
            ConfigWalk::Recursive(c) => ConfigWalk::Recursive(c),
        }
    }
}

/// Every config of `order` starts unvisited.
pub open spec fn initial_states(order: Seq<Seq<char>>) -> Map<Seq<char>, ConfigState> {
    Map::new(|k: Seq<char>| order.contains(k), |k: Seq<char>| ConfigState::Unvisited)
}

/// The walks started from each config of `order` from the `i`-th on that is
/// still unvisited.
pub open spec fn config_walk_all(
    cfgs: Seq<(Seq<char>, BodyModel)>,
    order: Seq<Seq<char>>,
    i: nat,
    state: Map<Seq<char>, ConfigState>,
) -> ConfigWalk
    decreases order.len() - i,
{
    if i >= order.len() {
        ConfigWalk::Finished(state)
    } else if state.contains_key(order[i as int]) && state[order[i as int]] == ConfigState::Unvisited {
        match config_visit(cfgs, order[i as int], state, Seq::empty(), unvisited_configs(state) + 1) {
            ConfigWalk::Finished(s) => config_walk_all(cfgs, order, i + 1, s),
            ConfigWalk::Recursive(c) => ConfigWalk::Recursive(c),
        }
    } else {
        config_walk_all(cfgs, order, i + 1, state)
    }
}

/// The states a map holds.
pub open spec fn states_map(m: KeyMap<ConfigState>) -> Map<Seq<char>, ConfigState> {
    Map::new(|k: Seq<char>| m.has(k), |k: Seq<char>| m.lookup(k)->0)
}

/// Every config `InProgress` is on `stack`.
pub open spec fn in_progress_on(state: Map<Seq<char>, ConfigState>, stack: Seq<Seq<char>>) -> bool {
    forall|k: Seq<char>| #[trigger] state.contains_key(k) && state[k] == ConfigState::InProgress ==> stack.contains(k)
}

/// Every config `s` has `InProgress` was already `InProgress` in `state`.
pub open spec fn no_new_in_progress(state: Map<Seq<char>, ConfigState>, s: Map<Seq<char>, ConfigState>) -> bool {
    forall|k: Seq<char>| #[trigger] s.contains_key(k) && s[k] == ConfigState::InProgress ==> state.contains_key(k)
        && state[k] == ConfigState::InProgress
}

proof fn lemma_config_cycle_found(cfgs: Seq<(Seq<char>, BodyModel)>, stack: Seq<Seq<char>>, name: Seq<char>)
    requires
        forall|j: int| 0 <= j < stack.len() - 1 ==> #[trigger] dep_linked(cfgs, stack, j),
        stack.len() > 0,
        name_deps(cfgs, stack.last()).contains(name),
        stack.contains(name),
    ensures
        is_dep_cycle(cfgs, cycle_from(stack, name)),
{
    stack.index_of_first_ensures(name);
    let p = stack.index_of_first(name)->0;
    let c = cycle_from(stack, name);
    assert(c.len() == stack.len() - p + 1);
    assert(c[0] == stack[p]);
    assert forall|j: int| 0 <= j < c.len() - 1 implies #[trigger] dep_linked(cfgs, c, j) by {
        if j < c.len() - 2 {
            assert(dep_linked(cfgs, stack, p + j));
            assert(c[j] == stack[p + j]);
            assert(c[j + 1] == stack[p + j + 1]);
        } else {
            assert(c[j] == stack.last());
            assert(c[j + 1] == name);
        }
    }
}

/// A walk reports only real cycles, and when it finishes it leaves no new
/// config `InProgress`.
proof fn lemma_config_visit_sound(
    cfgs: Seq<(Seq<char>, BodyModel)>,
    name: Seq<char>,
    state: Map<Seq<char>, ConfigState>,
    stack: Seq<Seq<char>>,
    fuel: nat,
)
    requires
        forall|j: int| 0 <= j < stack.len() - 1 ==> #[trigger] dep_linked(cfgs, stack, j),
        stack.len() > 0 ==> name_deps(cfgs, stack.last()).contains(name),
        in_progress_on(state, stack),
    ensures
        match config_visit(cfgs, name, state, stack, fuel) {
            ConfigWalk::Recursive(c) => is_dep_cycle(cfgs, c),
            ConfigWalk::Finished(s) => no_new_in_progress(state, s),
        },
    decreases fuel, 1nat, 0nat,
{
    match state_of(state, name) {
        ConfigState::Done => {},
        ConfigState::InProgress => {
            assert(state.contains_key(name));
            lemma_config_cycle_found(cfgs, stack, name);
        },
        ConfigState::Unvisited => {
            if fuel > 0 {
                let s1 = state.insert(name, ConfigState::InProgress);
                let st = stack.push(name);
                assert forall|j: int| 0 <= j < st.len() - 1 implies #[trigger] dep_linked(cfgs, st, j) by {
                    if j < stack.len() - 1 {
                        assert(dep_linked(cfgs, stack, j));
                    }
                }
                assert forall|k: Seq<char>| #[trigger] s1.contains_key(k) && s1[k] == ConfigState::InProgress implies st.contains(k) by {
                    if k == name {
                        assert(st[stack.len() as int] == name);
                    } else {
                        let j = choose|j: int| 0 <= j < stack.len() && stack[j] == k;
                        assert(st[j] == k);
                    }
                }
                lemma_config_scan_sound(cfgs, name, 0, s1, st, fuel);
                match config_scan(cfgs, name, 0, s1, st, fuel) {
                    ConfigWalk::Finished(s) => {
                        assert forall|k: Seq<char>| #[trigger] s.contains_key(k) && s[k] == ConfigState::InProgress implies state.contains_key(k)
                            && state[k] == ConfigState::InProgress by {
                            assert(s1.contains_key(k) && k != name);
                        }
                    },
                    ConfigWalk::Recursive(c) => {},
                }
            }
        },
    }
}

proof fn lemma_config_scan_sound(
    cfgs: Seq<(Seq<char>, BodyModel)>,
    name: Seq<char>,
    i: nat,
    state: Map<Seq<char>, ConfigState>,
    stack: Seq<Seq<char>>,
    fuel: nat,
)
    requires
        forall|j: int| 0 <= j < stack.len() - 1 ==> #[trigger] dep_linked(cfgs, stack, j),
        stack.len() > 0,
        stack.last() == name,
        in_progress_on(state, stack),
        fuel > 0,
    ensures
        match config_scan(cfgs, name, i, state, stack, fuel) {
            ConfigWalk::Recursive(c) => is_dep_cycle(cfgs, c),
            ConfigWalk::Finished(s) => forall|k: Seq<char>| #[trigger] s.contains_key(k) && s[k] == ConfigState::InProgress
                ==> state.contains_key(k) && state[k] == ConfigState::InProgress && k != name,
        },
    decreases fuel, 0nat, name_deps(cfgs, name).len() - i,
{
    if i < name_deps(cfgs, name).len() {
        let next = name_deps(cfgs, name)[i as int];
        assert(name_deps(cfgs, stack.last()).contains(next));
        lemma_config_visit_sound(cfgs, next, state, stack, (fuel - 1) as nat);
        match config_visit(cfgs, next, state, stack, (fuel - 1) as nat) {
            ConfigWalk::Finished(s) => {
                assert forall|k: Seq<char>| #[trigger] s.contains_key(k) && s[k] == ConfigState::InProgress implies stack.contains(k) by {
                    assert(state.contains_key(k));
                }
                lemma_config_scan_sound(cfgs, name, i + 1, s, stack, fuel);
                match config_scan(cfgs, name, i + 1, s, stack, fuel) {
                    ConfigWalk::Finished(s2) => {
                        assert forall|k: Seq<char>| #[trigger] s2.contains_key(k) && s2[k] == ConfigState::InProgress implies state.contains_key(k)
                            && state[k] == ConfigState::InProgress && k != name by {
                            assert(s.contains_key(k));
                        }
                    },
                    ConfigWalk::Recursive(c) => {},
                }
            },
            ConfigWalk::Recursive(c) => {},
        }
    }
}

proof fn lemma_config_all_sound(
    cfgs: Seq<(Seq<char>, BodyModel)>,
    order: Seq<Seq<char>>,
    i: nat,
    state: Map<Seq<char>, ConfigState>,
)
    requires
        in_progress_on(state, Seq::empty()),
    ensures
        config_walk_all(cfgs, order, i, state) matches ConfigWalk::Recursive(c) ==> is_dep_cycle(cfgs, c),
    decreases order.len() - i,
{
    if i < order.len() {
        let n = order[i as int];
        if state.contains_key(n) && state[n] == ConfigState::Unvisited {
            let fuel = unvisited_configs(state) + 1;
            lemma_config_visit_sound(cfgs, n, state, Seq::empty(), fuel);
            match config_visit(cfgs, n, state, Seq::empty(), fuel) {
                ConfigWalk::Finished(s) => {
                    assert forall|k: Seq<char>| #[trigger] s.contains_key(k) && s[k] == ConfigState::InProgress implies Seq::<Seq<char>>::empty().contains(k) by {
                        assert(state.contains_key(k));
                    }
                    lemma_config_all_sound(cfgs, order, i + 1, s);
                },
                ConfigWalk::Recursive(c) => {},
            }
        } else {
            lemma_config_all_sound(cfgs, order, i + 1, state);
        }
    }
}

/// Leaving an unvisited config does not leave more unvisited ones, and one
/// that was unvisited and no longer is leaves fewer.
proof fn lemma_unvisited_configs_drop(s0: Map<Seq<char>, ConfigState>, s: Map<Seq<char>, ConfigState>, name: Seq<char>)
    requires
        s0.dom().finite(),
        s.dom() == s0.dom(),
        forall|k: Seq<char>| #[trigger] s.contains_key(k) && s[k] == ConfigState::Unvisited ==> s0[k] == ConfigState::Unvisited,
        s0.contains_key(name),
        s0[name] == ConfigState::Unvisited,
        s[name] != ConfigState::Unvisited,
    ensures
        unvisited_configs(s) < unvisited_configs(s0),
{
    let a = s0.dom().filter(|k: Seq<char>| s0[k] == ConfigState::Unvisited);
    let b = s.dom().filter(|k: Seq<char>| s[k] == ConfigState::Unvisited);
    lemma_len_subset(a, s0.dom());
    assert(b.subset_of(a.remove(name)));
    lemma_len_subset(b, a.remove(name));
    assert(a.contains(name));
    vstd::set::axiom_set_remove_len(a, name);
}

/// Changing only unvisited configs does not leave more of them unvisited.
proof fn lemma_unvisited_configs_mono(s0: Map<Seq<char>, ConfigState>, s: Map<Seq<char>, ConfigState>)
    requires
        s0.dom().finite(),
        s.dom() == s0.dom(),
        forall|k: Seq<char>| #[trigger] s.contains_key(k) && s[k] == ConfigState::Unvisited ==> s0[k] == ConfigState::Unvisited,
    ensures
        unvisited_configs(s) <= unvisited_configs(s0),
{
    let a = s0.dom().filter(|k: Seq<char>| s0[k] == ConfigState::Unvisited);
    let b = s.dom().filter(|k: Seq<char>| s[k] == ConfigState::Unvisited);
    lemma_len_subset(a, s0.dom());
    assert(b.subset_of(a));
    lemma_len_subset(b, a);
}

/// `k` counts as done.
pub open spec fn cfg_done(s: Map<Seq<char>, ConfigState>, k: Seq<char>) -> bool {
    state_of(s, k) == ConfigState::Done
}

/// Every dependency of a done config is done.
pub open spec fn done_closed(cfgs: Seq<(Seq<char>, BodyModel)>, s: Map<Seq<char>, ConfigState>) -> bool {
    forall|k: Seq<char>, d: Seq<char>| cfg_done(s, k) && #[trigger] name_deps(cfgs, k).contains(d) ==> cfg_done(s, d)
}

/// `c` is a dependency cycle through done configs only.
pub open spec fn done_cycle(cfgs: Seq<(Seq<char>, BodyModel)>, s: Map<Seq<char>, ConfigState>, c: Seq<Seq<char>>) -> bool {
    &&& is_dep_cycle(cfgs, c)
    &&& forall|j: int| 0 <= j < c.len() ==> cfg_done(s, #[trigger] c[j])
}

/// No dependency cycle runs through done configs only.
pub open spec fn no_done_cycle(cfgs: Seq<(Seq<char>, BodyModel)>, s: Map<Seq<char>, ConfigState>) -> bool {
    forall|c: Seq<Seq<char>>| !#[trigger] done_cycle(cfgs, s, c)
}

/// Every declared config has a state.
pub open spec fn declared_tracked(cfgs: Seq<(Seq<char>, BodyModel)>, s: Map<Seq<char>, ConfigState>) -> bool {
    forall|i: int| 0 <= i < cfgs.len() ==> #[trigger] s.contains_key(cfgs[i].0)
}

/// Some config depends on itself, directly or through others.
pub open spec fn has_dep_cycle(cfgs: Seq<(Seq<char>, BodyModel)>) -> bool {
    exists|c: Seq<Seq<char>>| is_dep_cycle(cfgs, c)
}

/// A config with dependencies is declared, and so has a state.
proof fn lemma_has_deps_tracked(cfgs: Seq<(Seq<char>, BodyModel)>, s: Map<Seq<char>, ConfigState>, k: Seq<char>)
    requires
        declared_tracked(cfgs, s),
        name_deps(cfgs, k).len() > 0,
    ensures
        s.contains_key(k),
{
    assert(assoc_get(cfgs, k) is Some);
    crate::keymap::lemma_assoc_index(cfgs, k);
    let i = crate::keymap::assoc_index(cfgs, k)->0;
    assert(s.contains_key(cfgs[i].0));
}

/// Only unvisited entries change between `s0` and `s`.
pub open spec fn only_unvisited_change(s0: Map<Seq<char>, ConfigState>, s: Map<Seq<char>, ConfigState>) -> bool {
    &&& s.dom() == s0.dom()
    &&& forall|k: Seq<char>| #[trigger] s0.contains_key(k) && s0[k] != ConfigState::Unvisited ==> s[k] == s0[k]
}

/// Marking an unvisited config `InProgress` keeps the done part closed and
/// acyclic.
proof fn lemma_config_start_keeps(cfgs: Seq<(Seq<char>, BodyModel)>, s: Map<Seq<char>, ConfigState>, u: Seq<char>)
    requires
        done_closed(cfgs, s),
        no_done_cycle(cfgs, s),
        s.contains_key(u),
        s[u] == ConfigState::Unvisited,
    ensures
        done_closed(cfgs, s.insert(u, ConfigState::InProgress)),
        no_done_cycle(cfgs, s.insert(u, ConfigState::InProgress)),
{
    let s1 = s.insert(u, ConfigState::InProgress);
    assert forall|k: Seq<char>, d: Seq<char>| cfg_done(s1, k) && #[trigger] name_deps(cfgs, k).contains(d) implies cfg_done(s1, d) by {
        assert(cfg_done(s, k));
        assert(cfg_done(s, d));
    }
    assert forall|c: Seq<Seq<char>>| !#[trigger] done_cycle(cfgs, s1, c) by {
        if done_cycle(cfgs, s1, c) {
            assert forall|j: int| 0 <= j < c.len() implies cfg_done(s, #[trigger] c[j]) by {
                assert(cfg_done(s1, c[j]));
            }
            assert(done_cycle(cfgs, s, c));
        }
    }
}

/// Marking an `InProgress` config whose dependencies are all done as `Done`
/// keeps the done part closed and acyclic.
proof fn lemma_config_finish_keeps(cfgs: Seq<(Seq<char>, BodyModel)>, s: Map<Seq<char>, ConfigState>, u: Seq<char>)
    requires
        done_closed(cfgs, s),
        no_done_cycle(cfgs, s),
        s.contains_key(u),
        s[u] == ConfigState::InProgress,
        forall|d: Seq<char>| #[trigger] name_deps(cfgs, u).contains(d) ==> cfg_done(s, d),
    ensures
        done_closed(cfgs, s.insert(u, ConfigState::Done)),
        no_done_cycle(cfgs, s.insert(u, ConfigState::Done)),
{
    let s2 = s.insert(u, ConfigState::Done);
    assert forall|k: Seq<char>, d: Seq<char>| cfg_done(s2, k) && #[trigger] name_deps(cfgs, k).contains(d) implies cfg_done(s2, d) by {
        if k != u {
            assert(cfg_done(s, k));
        }
        assert(cfg_done(s, d));
    }
    assert forall|c: Seq<Seq<char>>| !#[trigger] done_cycle(cfgs, s2, c) by {
        if done_cycle(cfgs, s2, c) {
            if exists|j: int| 0 <= j < c.len() && c[j] == u {
                let j = choose|j: int| 0 <= j < c.len() && c[j] == u;
                let p = if j == 0 { c.len() - 2 } else { j - 1 };
                assert(dep_linked(cfgs, c, p));
                assert(c[p + 1] == u);
                assert(cfg_done(s2, c[p]));
                if c[p] == u {
                    assert(name_deps(cfgs, u).contains(u));
                } else {
                    assert(cfg_done(s, c[p]));
                    assert(name_deps(cfgs, c[p]).contains(u));
                }
            } else {
                assert forall|j: int| 0 <= j < c.len() implies cfg_done(s, #[trigger] c[j]) by {
                    assert(cfg_done(s2, c[j]));
                }
                assert(done_cycle(cfgs, s, c));
            }
        }
    }
}

/// With enough fuel, a walk that finds no cycle leaves `name` done, changes
/// only unvisited configs, and keeps the done part closed and acyclic.
proof fn lemma_config_visit_complete(
    cfgs: Seq<(Seq<char>, BodyModel)>,
    name: Seq<char>,
    state: Map<Seq<char>, ConfigState>,
    stack: Seq<Seq<char>>,
    fuel: nat,
)
    requires
        state.dom().finite(),
        fuel > unvisited_configs(state),
        done_closed(cfgs, state),
        no_done_cycle(cfgs, state),
    ensures
        config_visit(cfgs, name, state, stack, fuel) matches ConfigWalk::Finished(s) ==> {
            &&& only_unvisited_change(state, s)
            &&& cfg_done(s, name)
            &&& done_closed(cfgs, s)
            &&& no_done_cycle(cfgs, s)
        },
    decreases fuel, 1nat, 0nat,
{
    if state_of(state, name) == ConfigState::Unvisited {
        let s1 = state.insert(name, ConfigState::InProgress);
        assert(state.contains_key(name));
        lemma_config_start_keeps(cfgs, state, name);
        assert(s1.dom() =~= state.dom());
        assert forall|k: Seq<char>| #[trigger] s1.contains_key(k) && s1[k] == ConfigState::Unvisited implies state[k] == ConfigState::Unvisited by {}
        lemma_unvisited_configs_drop(state, s1, name);
        lemma_config_scan_complete(cfgs, name, 0, s1, stack.push(name), fuel);
        if let ConfigWalk::Finished(s) = config_scan(cfgs, name, 0, s1, stack.push(name), fuel) {
            assert forall|k: Seq<char>| #[trigger] state.contains_key(k) && state[k] != ConfigState::Unvisited implies s[k] == state[k] by {
                assert(s1.contains_key(k) && k != name);
            }
        }
    }
}

proof fn lemma_config_scan_complete(
    cfgs: Seq<(Seq<char>, BodyModel)>,
    name: Seq<char>,
    i: nat,
    state: Map<Seq<char>, ConfigState>,
    stack: Seq<Seq<char>>,
    fuel: nat,
)
    requires
        state.dom().finite(),
        state.contains_key(name),
        state[name] == ConfigState::InProgress,
        fuel > unvisited_configs(state) + 1,
        forall|j: int| 0 <= j < i && j < name_deps(cfgs, name).len() ==> cfg_done(state, #[trigger] name_deps(cfgs, name)[j]),
        done_closed(cfgs, state),
        no_done_cycle(cfgs, state),
    ensures
        config_scan(cfgs, name, i, state, stack, fuel) matches ConfigWalk::Finished(s) ==> {
            &&& s.dom() == state.dom()
            &&& forall|k: Seq<char>| #[trigger] state.contains_key(k) && state[k] != ConfigState::Unvisited && k != name ==> s[k] == state[k]
            &&& forall|k: Seq<char>| #[trigger] s.contains_key(k) && s[k] == ConfigState::Unvisited ==> state[k] == ConfigState::Unvisited
            &&& cfg_done(s, name)
            &&& done_closed(cfgs, s)
            &&& no_done_cycle(cfgs, s)
        },
    decreases fuel, 0nat, name_deps(cfgs, name).len() - i,
{
    let ds = name_deps(cfgs, name);
    if i >= ds.len() {
        assert forall|d: Seq<char>| #[trigger] ds.contains(d) implies cfg_done(state, d) by {
            let j = choose|j: int| 0 <= j < ds.len() && ds[j] == d;
            assert(cfg_done(state, ds[j]));
        }
        lemma_config_finish_keeps(cfgs, state, name);
        let s2 = state.insert(name, ConfigState::Done);
        assert(s2.dom() =~= state.dom());
    } else {
        let next = ds[i as int];
        lemma_config_visit_complete(cfgs, next, state, stack, (fuel - 1) as nat);
        if let ConfigWalk::Finished(s) = config_visit(cfgs, next, state, stack, (fuel - 1) as nat) {
            assert forall|k: Seq<char>| #[trigger] s.contains_key(k) && s[k] == ConfigState::Unvisited implies state[k] == ConfigState::Unvisited by {
                if state[k] != ConfigState::Unvisited {
                    assert(state.contains_key(k));
                }
            }
            lemma_unvisited_configs_mono(state, s);
            assert forall|j: int| 0 <= j < i + 1 && j < ds.len() implies cfg_done(s, #[trigger] ds[j]) by {
                if j < i {
                    assert(cfg_done(state, ds[j]));
                    if state.contains_key(ds[j]) {
                        assert(state[ds[j]] != ConfigState::Unvisited);
                    } else {
                        assert(!s.contains_key(ds[j]));
                    }
                }
            }
            assert(state.contains_key(name) && state[name] != ConfigState::Unvisited);
            lemma_config_scan_complete(cfgs, name, i + 1, s, stack, fuel);
            if let ConfigWalk::Finished(s2) = config_scan(cfgs, name, i + 1, s, stack, fuel) {
                assert forall|k: Seq<char>| #[trigger] state.contains_key(k) && state[k] != ConfigState::Unvisited && k != name implies s2[k] == state[k] by {
                    assert(s.contains_key(k));
                }
                assert forall|k: Seq<char>| #[trigger] s2.contains_key(k) && s2[k] == ConfigState::Unvisited implies state[k] == ConfigState::Unvisited by {
                    assert(s.contains_key(k));
                }
            }
        }
    }
}

/// Walks from every config of `order` that find no cycle leave no config
/// unvisited or in progress, with the done part closed and acyclic.
proof fn lemma_config_all_complete(
    cfgs: Seq<(Seq<char>, BodyModel)>,
    order: Seq<Seq<char>>,
    i: nat,
    state: Map<Seq<char>, ConfigState>,
)
    requires
        state.dom().finite(),
        state.dom() == order.to_set(),
        forall|j: int| 0 <= j < i ==> #[trigger] state[order[j]] != ConfigState::Unvisited,
        forall|k: Seq<char>| #[trigger] state.contains_key(k) ==> state[k] != ConfigState::InProgress,
        done_closed(cfgs, state),
        no_done_cycle(cfgs, state),
    ensures
        config_walk_all(cfgs, order, i, state) matches ConfigWalk::Finished(s) ==> {
            &&& s.dom() == state.dom()
            &&& forall|k: Seq<char>| #[trigger] s.contains_key(k) ==> s[k] == ConfigState::Done
            &&& no_done_cycle(cfgs, s)
        },
    decreases order.len() - i,
{
    if i >= order.len() {
        assert forall|k: Seq<char>| #[trigger] state.contains_key(k) implies state[k] == ConfigState::Done by {
            assert(order.to_set().contains(k));
            let j = choose|j: int| 0 <= j < order.len() && order[j] == k;
            assert(state[order[j]] != ConfigState::Unvisited);
        }
    } else {
        let n = order[i as int];
        assert(order.to_set().contains(n));
        if state.contains_key(n) && state[n] == ConfigState::Unvisited {
            let fuel = unvisited_configs(state) + 1;
            lemma_config_visit_complete(cfgs, n, state, Seq::empty(), fuel);
            lemma_config_visit_sound(cfgs, n, state, Seq::empty(), fuel);
            if let ConfigWalk::Finished(s) = config_visit(cfgs, n, state, Seq::empty(), fuel) {
                assert forall|j: int| 0 <= j < i + 1 implies #[trigger] s[order[j]] != ConfigState::Unvisited by {
                    if j < i {
                        assert(state[order[j]] != ConfigState::Unvisited);
                        assert(order.to_set().contains(order[j]));
                        assert(state.contains_key(order[j]));
                    }
                }
                assert forall|k: Seq<char>| #[trigger] s.contains_key(k) implies s[k] != ConfigState::InProgress by {
                    if s[k] == ConfigState::InProgress {
                        assert(state.contains_key(k));
                    }
                }
                lemma_config_all_complete(cfgs, order, i + 1, s);
            }
        } else {
            assert forall|j: int| 0 <= j < i + 1 implies #[trigger] state[order[j]] != ConfigState::Unvisited by {}
            lemma_config_all_complete(cfgs, order, i + 1, state);
        }
    }
}

/// When every declared config is in `order`, the walks find a dependency
/// cycle whenever there is one.
pub(crate) proof fn lemma_config_cycle_detected(cfgs: Seq<(Seq<char>, BodyModel)>, order: Seq<Seq<char>>)
    requires
        forall|i: int| 0 <= i < cfgs.len() ==> order.contains(#[trigger] cfgs[i].0),
    ensures
        config_walk_all(cfgs, order, 0, initial_states(order)) is Finished ==> !has_dep_cycle(cfgs),
{
    let s0 = initial_states(order);
    vstd::seq_lib::seq_to_set_is_finite(order);
    assert(s0.dom() =~= order.to_set());
    assert(declared_tracked(cfgs, s0)) by {
        assert forall|i: int| 0 <= i < cfgs.len() implies #[trigger] s0.contains_key(cfgs[i].0) by {
            assert(order.contains(cfgs[i].0));
        }
    }
    assert forall|k: Seq<char>, d: Seq<char>| cfg_done(s0, k) && #[trigger] name_deps(cfgs, k).contains(d) implies cfg_done(s0, d) by {
        lemma_has_deps_tracked(cfgs, s0, k);
    }
    assert forall|c: Seq<Seq<char>>| !#[trigger] done_cycle(cfgs, s0, c) by {
        if done_cycle(cfgs, s0, c) {
            assert(dep_linked(cfgs, c, 0));
            lemma_has_deps_tracked(cfgs, s0, c[0]);
            assert(cfg_done(s0, c[0]));
        }
    }
    lemma_config_all_complete(cfgs, order, 0, s0);
    if let ConfigWalk::Finished(s) = config_walk_all(cfgs, order, 0, s0) {
        if has_dep_cycle(cfgs) {
            let c = choose|c: Seq<Seq<char>>| is_dep_cycle(cfgs, c);
            assert(declared_tracked(cfgs, s)) by {
                assert forall|i: int| 0 <= i < cfgs.len() implies #[trigger] s.contains_key(cfgs[i].0) by {
                    assert(s0.contains_key(cfgs[i].0));
                }
            }
            assert forall|j: int| 0 <= j < c.len() implies cfg_done(s, #[trigger] c[j]) by {
                let jj = if j == c.len() - 1 { 0 } else { j };
                assert(c[jj] == c[j]);
                assert(dep_linked(cfgs, c, jj));
                lemma_has_deps_tracked(cfgs, s, c[jj]);
            }
            assert(done_cycle(cfgs, s, c));
        }
    }
}

/// Record state `st` for `name`.
fn set_state(state: &mut KeyMap<ConfigState>, name: &String, st: ConfigState)
    ensures
        states_map(*final(state)) == states_map(*old(state)).insert(name@, st),
{
    let ghost before = state.pairs();
    state.ascending_now();
    state.insert(name.clone(), st);
    proof {
        assert forall|k: Seq<char>| #[trigger] state.lookup(k) == (if k == name@ { Some(st) } else { old(state).lookup(k) }) by {
            lemma_insert_get(before, name@, st, k);
        }
        assert(states_map(*state) =~= states_map(*old(state)).insert(name@, st));
    }
}

/// The configs `body` names, in declaration order.
pub fn config_deps(body: &L3ConfigBody) -> (out: Vec<String>)
    ensures
        names_view(out@) == body_deps(body_model(*body)),
{
    let mut out: Vec<String> = Vec::new();
    match body {
        L3ConfigBody::Record(fields) => {
            let mut i: usize = 0;
            while i < fields.len()
                invariant
                    i <= fields@.len(),
                    names_view(out@) == record_deps(fields@.subrange(0, i as int)),
                decreases fields@.len() - i,
            {
                let ghost before = out@;
                if let L3TypeRef::Config(n) = &fields[i].1 {
                    out.push(n.clone());
                    proof {
                        assert(names_view(out@) =~= names_view(before) + seq![n@]);
                    }
                }
                proof {
                    let pre = fields@.subrange(0, i + 1);
                    assert(pre.drop_last() =~= fields@.subrange(0, i as int));
                    assert(names_view(out@) =~= record_deps(pre));
                }
                i = i + 1;
            }
            proof {
                assert(fields@.subrange(0, fields@.len() as int) =~= fields@);
            }
        },
        L3ConfigBody::Sum(variants) => {
            let ghost vm = variants@.map_values(|v: (String, Vec<L3TypeRef>)| (v.0, v.1@));
            let mut i: usize = 0;
            while i < variants.len()
                invariant
                    i <= variants@.len(),
                    vm == variants@.map_values(|v: (String, Vec<L3TypeRef>)| (v.0, v.1@)),
                    names_view(out@) == sum_deps(vm.subrange(0, i as int)),
                decreases variants@.len() - i,
            {
                let params = &variants[i].1;
                let ghost base = out@;
                let mut j: usize = 0;
                while j < params.len()
                    invariant
                        j <= params@.len(),
                        names_view(out@) == names_view(base) + types_deps(params@.subrange(0, j as int)),
                    decreases params@.len() - j,
                {
                    let ghost before = out@;
                    if let L3TypeRef::Config(n) = &params[j] {
                        out.push(n.clone());
                        proof {
                            assert(names_view(out@) =~= names_view(before) + seq![n@]);
                        }
                    }
                    proof {
                        let pre = params@.subrange(0, j + 1);
                        assert(pre.drop_last() =~= params@.subrange(0, j as int));
                        assert(names_view(out@) =~= names_view(base) + types_deps(pre));
                    }
                    j = j + 1;
                }
                proof {
                    assert(params@.subrange(0, params@.len() as int) =~= params@);
                    let pre = vm.subrange(0, i + 1);
                    assert(pre.drop_last() =~= vm.subrange(0, i as int));
                    assert(pre.last().1 == params@);
                    assert(names_view(out@) =~= sum_deps(pre));
                }
                i = i + 1;
            }
            proof {
                assert(vm.subrange(0, vm.len() as int) =~= vm);
            }
        },
    }
    out
}

/// The walk from `name`; `fuel` exceeds the number of unvisited configs.
fn visit_config(
    name: &String,
    configs: &KeyMap<L3ConfigDecl>,
    state: &mut KeyMap<ConfigState>,
    stack: &mut Vec<String>,
    Ghost(fuel): Ghost<nat>,
) -> (r: Result<(), L3LowerError>)
    requires
        states_map(*old(state)).dom().finite(),
        fuel > unvisited_configs(states_map(*old(state))),
    ensures
        match config_visit(configs_model(*configs), name@, states_map(*old(state)), names_view(old(stack)@), fuel) {
            ConfigWalk::Finished(s) => r is Ok && states_map(*final(state)) == s,
            ConfigWalk::Recursive(c) => r matches Err(L3LowerError::RecursiveConfig { cycle }) && names_view(cycle@) == c,
        },
        r is Ok ==> names_view(final(stack)@) == names_view(old(stack)@),
        r is Ok ==> states_map(*final(state)).dom() == states_map(*old(state)).dom(),
        r is Ok ==> forall|k: Seq<char>| #[trigger] states_map(*final(state)).contains_key(k)
            && states_map(*final(state))[k] == ConfigState::Unvisited ==> states_map(*old(state))[k] == ConfigState::Unvisited,
        r is Ok ==> state_of(states_map(*old(state)), name@) == ConfigState::Unvisited ==> states_map(*final(state))[name@]
            != ConfigState::Unvisited,
    decreases fuel, 1nat,
{
    let ghost cfgs = configs_model(*configs);
    let ghost s0 = states_map(*state);
    let ghost p0 = names_view(stack@);
    let ghost target = config_visit(cfgs, name@, s0, p0, fuel);
    let current = match state.get(name.as_str()) {
        Some(s) => *s,
        None => ConfigState::Done,
    };
    assert(current == state_of(s0, name@));
    match current {
        ConfigState::Done => {
            return Ok(());
        },
        ConfigState::InProgress => {
            let cycle = cycle_through(stack, name);
            return Err(L3LowerError::RecursiveConfig { cycle });
        },
        ConfigState::Unvisited => {},
    }
    set_state(state, name, ConfigState::InProgress);
    stack.push(name.clone());
    proof {
        assert(names_view(stack@) =~= p0.push(name@));
    }
    let ghost s1 = states_map(*state);
    assert(target == config_scan(cfgs, name@, 0, s1, p0.push(name@), fuel));
    proof {
        lemma_get_mapped(configs.pairs(), name@, |d: L3ConfigDecl| body_model(d.body));
    }
    match configs.get(name.as_str()) {
        Some(decl) => {
            let deps = config_deps(&decl.body);
            let ghost ds = name_deps(cfgs, name@);
            assert(names_view(deps@) == ds);
            let mut i: usize = 0;
            while i < deps.len()
                invariant
                    i <= deps@.len(),
                    names_view(deps@) == ds,
                    ds == name_deps(cfgs, name@),
                    cfgs == configs_model(*configs),
                    s0 == states_map(*old(state)),
                    p0 == names_view(old(stack)@),
                    target == config_visit(cfgs, name@, s0, p0, fuel),
                    s0.dom().finite(),
                    s0.contains_key(name@),
                    s0[name@] == ConfigState::Unvisited,
                    fuel > unvisited_configs(s0),
                    states_map(*state).dom() == s0.dom(),
                    states_map(*state)[name@] != ConfigState::Unvisited,
                    forall|k: Seq<char>| #[trigger] states_map(*state).contains_key(k)
                        && states_map(*state)[k] == ConfigState::Unvisited ==> s0[k] == ConfigState::Unvisited,
                    names_view(stack@) == p0.push(name@),
                    config_scan(cfgs, name@, i as nat, states_map(*state), p0.push(name@), fuel) == target,
                decreases deps@.len() - i,
            {
                let ghost sb = states_map(*state);
                proof {
                    lemma_unvisited_configs_drop(s0, sb, name@);
                }
                assert(deps@[i as int]@ == ds[i as int]);
                match visit_config(&deps[i], configs, state, stack, Ghost((fuel - 1) as nat)) {
                    Ok(()) => {},
                    Err(e) => {
                        return Err(e);
                    },
                }
                i = i + 1;
            }
        },
        None => {
            assert(name_deps(cfgs, name@).len() == 0);
        },
    }
    let ghost full = stack@;
    stack.pop();
    proof {
        assert(stack@ == full.drop_last());
        assert(names_view(stack@) =~= p0) by {
            assert forall|j: int| 0 <= j < p0.len() implies names_view(stack@)[j] == p0[j] by {
                assert(names_view(full)[j] == p0.push(name@)[j]);
            }
        }
    }
    set_state(state, name, ConfigState::Done);
    proof {
        assert(states_map(*state).dom() =~= s0.dom());
    }
    Ok(())
}

/// Reject any config that depends on itself, directly or through others,
/// walking from each config of `config_order` in turn. Any reported cycle is
/// a real one, listed in walk order and closing on the repeated name.
pub fn detect_recursive_configs(config_order: &[String], configs: &KeyMap<L3ConfigDecl>) -> (r: Result<(), L3LowerError>)
    ensures
        match config_walk_all(configs_model(*configs), names_view(config_order@), 0, initial_states(names_view(config_order@))) {
            ConfigWalk::Finished(_) => r is Ok,
            ConfigWalk::Recursive(c) => r matches Err(L3LowerError::RecursiveConfig { cycle }) && names_view(cycle@) == c,
        },
        r matches Err(L3LowerError::RecursiveConfig { cycle }) ==> is_dep_cycle(configs_model(*configs), names_view(cycle@)),
        r is Err ==> r matches Err(L3LowerError::RecursiveConfig { .. }),
        (forall|i: int| 0 <= i < configs_model(*configs).len() ==> names_view(config_order@).contains(
            #[trigger] configs_model(*configs)[i].0,
        )) ==> (r is Ok <==> !has_dep_cycle(configs_model(*configs))),
{
    let ghost cfgs = configs_model(*configs);
    let ghost order = names_view(config_order@);
    let mut state: KeyMap<ConfigState> = KeyMap::new();
    let mut k: usize = 0;
    proof {
        assert(states_map(state) =~= initial_states(order.subrange(0, 0)));
    }
    while k < config_order.len()
        invariant
            k <= config_order@.len(),
            order == names_view(config_order@),
            states_map(state) == initial_states(order.subrange(0, k as int)),
        decreases config_order@.len() - k,
    {
        set_state(&mut state, &config_order[k], ConfigState::Unvisited);
        proof {
            assert(order[k as int] == config_order@[k as int]@);
            assert(states_map(state) =~= initial_states(order.subrange(0, k + 1))) by {
                let longer = order.subrange(0, k + 1);
                let shorter = order.subrange(0, k as int);
                assert forall|x: Seq<char>| longer.contains(x) <==> (shorter.contains(x) || x == order[k as int]) by {
                    if longer.contains(x) {
                        let j = choose|j: int| 0 <= j < longer.len() && #[trigger] longer[j] == x;
                        if j < k {
                            assert(shorter[j] == x);
                        }
                    }
                    if shorter.contains(x) {
                        let j = choose|j: int| 0 <= j < shorter.len() && #[trigger] shorter[j] == x;
                        assert(longer[j] == x);
                    }
                    if x == order[k as int] {
                        assert(longer[k as int] == x);
                    }
                }
            }
        }
        k = k + 1;
    }
    proof {
        assert(order.subrange(0, order.len() as int) =~= order);
        vstd::seq_lib::seq_to_set_is_finite(order);
        assert(initial_states(order).dom() =~= order.to_set());
        lemma_config_all_sound(cfgs, order, 0, initial_states(order));
    }
    let ghost whole = config_walk_all(cfgs, order, 0, initial_states(order));
    let mut i: usize = 0;
    while i < config_order.len()
        invariant
            i <= config_order@.len(),
            order == names_view(config_order@),
            cfgs == configs_model(*configs),
            states_map(state).dom().finite(),
            config_walk_all(cfgs, order, i as nat, states_map(state)) == whole,
            whole == config_walk_all(cfgs, order, 0, initial_states(order)),
            whole matches ConfigWalk::Recursive(c) ==> is_dep_cycle(cfgs, c),
        decreases config_order@.len() - i,
    {
        let name = &config_order[i];
        assert(name@ == order[i as int]);
        let unvisited = match state.get(name.as_str()) {
            Some(s) => *s == ConfigState::Unvisited,
            None => false,
        };
        if unvisited {
            let mut stack: Vec<String> = Vec::new();
            let ghost sb = states_map(state);
            proof {
                assert(names_view(stack@) =~= Seq::<Seq<char>>::empty());
            }
            match visit_config(name, configs, &mut state, &mut stack, Ghost(unvisited_configs(sb) + 1)) {
                Ok(()) => {},
                Err(e) => {
                    return Err(e);
                },
            }
        }
        i = i + 1;
    }
    proof {
        if forall|j: int| 0 <= j < cfgs.len() ==> order.contains(#[trigger] cfgs[j].0) {
            lemma_config_cycle_detected(cfgs, order);
        }
    }
    Ok(())
}

} // verus!
