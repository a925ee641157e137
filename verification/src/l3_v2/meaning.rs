//! What expressions mean: integer comparisons and arithmetic evaluate to
//! the mathematical ordering and sums, lowering keeps each surface operator's
//! meaning, and a run evaluates each `let` with the earlier ones in scope.
use vstd::prelude::*;

use crate::l3_v2::budget::{tick_spec, EvalBudget};
use crate::keymap::{assoc_get, keys_ascending, lemma_insert_get, lemma_insert_get_own};
use crate::keymap::insert_pairs;
use crate::l3_v2::exhaustive::names;
use crate::l3_v2::runner::{
    agenda, bind_lets, eligible, fact_for, first_eligible, pending_names, plan_rules, run_spec, FactModel, RuleModel,
    StopModel,
};
use crate::l3_v2::semantics::{
    binding, lemma_stored_read, arith_spec, eval_result, eval_spec, fuel, leave_depth, may_descend, order_spec, starting_budget, EnvModel,
};
use crate::l3_v2::expr_view::{expr_model, ExprModel};
use crate::input::grammar::{ascii_digit, digits_value};
use crate::text::{decimal, digit_char};
use crate::l3_v2::lower::{all_digits, int_literal, lower_spec, LowerFault, ScopeModel, SurfaceBinOp, SurfaceExpr};
use crate::l3_v2::{ArithOpV2, CmpOpV2, FaultModel, L3ExprV2, L3PlanItemV2, ValueModel};

verus! {

/// The comparison of two integer literals.
pub open spec fn compare_ints(op: CmpOpV2, x: i64, y: i64) -> L3ExprV2 {
    L3ExprV2::Cmp(op, Box::new(L3ExprV2::Int(x)), Box::new(L3ExprV2::Int(y)))
}

/// The arithmetic of two integer literals.
pub open spec fn combine_ints(op: ArithOpV2, x: i64, y: i64) -> L3ExprV2 {
    L3ExprV2::Arith(op, Box::new(L3ExprV2::Int(x)), Box::new(L3ExprV2::Int(y)))
}

/// The budget after the first `k` steps at nesting depth `d`.
spec fn after_steps(k: usize, d: usize) -> EvalBudget {
    EvalBudget { steps: k, recursion_depth: d, ..EvalBudget::initial() }
}

/// An integer literal evaluates to itself, costing one step under a budget.
proof fn lemma_literal(n: i64, env: EnvModel, b: Option<EvalBudget>)
    requires
        b is None || b == Some(after_steps(1, 1)) || b == Some(after_steps(2, 1)),
    ensures
        eval_spec(L3ExprV2::Int(n), env, b, None).0 == Ok::<ValueModel, FaultModel>(ValueModel::Int(n)),
        b is None ==> eval_spec(L3ExprV2::Int(n), env, b, None).1 is None,
        b == Some(after_steps(1, 1)) ==> eval_spec(L3ExprV2::Int(n), env, b, None).1 == Some(after_steps(2, 1)),
        b == Some(after_steps(2, 1)) ==> eval_spec(L3ExprV2::Int(n), env, b, None).1 == Some(after_steps(3, 1)),
{
    if let Some(x) = b {
        let (t, x1) = tick_spec(x);
        assert(t is Ok);
        let x2 = EvalBudget { recursion_depth: (x1.recursion_depth + 1) as usize, ..x1 };
        assert(leave_depth(Some(x2)) == Some(EvalBudget { steps: x1.steps, recursion_depth: 1, ..x1 }));
    }
}

/// Both operands of a binary expression over literals evaluate, under
/// the starting budget or none.
proof fn lemma_operands(x: i64, y: i64, env: EnvModel) -> (r: (Option<EvalBudget>, nat))
    ensures
        r.0 == (match starting_budget(env) {
            None => None,
            Some(_) => Some(after_steps(1, 1)),
        }),
        r.1 == fuel(starting_budget(env)),
        may_descend(r.0, r.1),
        eval_spec(L3ExprV2::Int(x), env, r.0, None).0 == Ok::<ValueModel, FaultModel>(ValueModel::Int(x)),
        may_descend(eval_spec(L3ExprV2::Int(x), env, r.0, None).1, r.1),
        eval_spec(L3ExprV2::Int(y), env, eval_spec(L3ExprV2::Int(x), env, r.0, None).1, None).0 == Ok::<
            ValueModel,
            FaultModel,
        >(ValueModel::Int(y)),
        starting_budget(env) is Some ==> eval_spec(L3ExprV2::Int(x), env, r.0, None).1 == Some(after_steps(2, 1)),
{
    let b = starting_budget(env);
    let r0 = match b {
        None => None,
        Some(_) => Some(after_steps(1, 1)),
    };
    lemma_literal(x, env, r0);
    let b1 = eval_spec(L3ExprV2::Int(x), env, r0, None).1;
    lemma_literal(y, env, b1);
    (r0, fuel(b))
}

proof fn lemma_compare_literals(op: CmpOpV2, x: i64, y: i64, env: EnvModel)
    ensures
        eval_result(compare_ints(op, x, y), env) == Ok::<ValueModel, FaultModel>(ValueModel::Bool(
            if op == CmpOpV2::Eq {
                x == y
            } else if op == CmpOpV2::Ne {
                x != y
            } else {
                order_spec(op, x, y)
            },
        )),
{
    reveal(eval_result);
    let e = compare_ints(op, x, y);
    let (b0, f0) = lemma_operands(x, y, env);
    if let Some(st) = starting_budget(env) {
        let (t, x1) = tick_spec(st);
        assert(t is Ok);
        let x2 = EvalBudget { recursion_depth: (x1.recursion_depth + 1) as usize, ..x1 };
        assert(x2 == after_steps(1, 1));
    }
    assert(ValueModel::Int(x) == ValueModel::Int(y) <==> x == y);
}

proof fn lemma_arith_literals(op: ArithOpV2, x: i64, y: i64, env: EnvModel)
    ensures
        eval_result(combine_ints(op, x, y), env) == match arith_spec(op, x, y) {
            Some(z) => Ok::<ValueModel, FaultModel>(ValueModel::Int(z)),
            None => Err(FaultModel::Overflow(op)),
        },
{
    reveal(eval_result);
    let (b0, f0) = lemma_operands(x, y, env);
    if let Some(st) = starting_budget(env) {
        let (t, x1) = tick_spec(st);
        assert(t is Ok);
        let x2 = EvalBudget { recursion_depth: (x1.recursion_depth + 1) as usize, ..x1 };
        assert(x2 == after_steps(1, 1));
    }
}

/// Comparing two integers gives the mathematical answer, in every
/// environment: `<`, `<=`, `>`, `>=`, `==` and `!=` of `x` and `y`.
pub proof fn lemma_integer_comparisons(x: i64, y: i64, env: EnvModel)
    ensures
        eval_result(compare_ints(CmpOpV2::Lt, x, y), env) == Ok::<ValueModel, FaultModel>(ValueModel::Bool(x < y)),
        eval_result(compare_ints(CmpOpV2::Le, x, y), env) == Ok::<ValueModel, FaultModel>(ValueModel::Bool(x <= y)),
        eval_result(compare_ints(CmpOpV2::Gt, x, y), env) == Ok::<ValueModel, FaultModel>(ValueModel::Bool(x > y)),
        eval_result(compare_ints(CmpOpV2::Ge, x, y), env) == Ok::<ValueModel, FaultModel>(ValueModel::Bool(x >= y)),
        eval_result(compare_ints(CmpOpV2::Eq, x, y), env) == Ok::<ValueModel, FaultModel>(ValueModel::Bool(x == y)),
        eval_result(compare_ints(CmpOpV2::Ne, x, y), env) == Ok::<ValueModel, FaultModel>(ValueModel::Bool(x != y)),
{
    lemma_compare_literals(CmpOpV2::Lt, x, y, env);
    lemma_compare_literals(CmpOpV2::Le, x, y, env);
    lemma_compare_literals(CmpOpV2::Gt, x, y, env);
    lemma_compare_literals(CmpOpV2::Ge, x, y, env);
    lemma_compare_literals(CmpOpV2::Eq, x, y, env);
    lemma_compare_literals(CmpOpV2::Ne, x, y, env);
}

/// Adding, subtracting or multiplying two integers gives the mathematical
/// result when it fits in 64 bits, and an overflow fault when it does not,
/// in every environment.
pub proof fn lemma_integer_arithmetic(x: i64, y: i64, env: EnvModel)
    ensures
        eval_result(combine_ints(ArithOpV2::Add, x, y), env) == if i64::MIN <= x + y <= i64::MAX {
            Ok::<ValueModel, FaultModel>(ValueModel::Int((x + y) as i64))
        } else {
            Err(FaultModel::Overflow(ArithOpV2::Add))
        },
        eval_result(combine_ints(ArithOpV2::Sub, x, y), env) == if i64::MIN <= x - y <= i64::MAX {
            Ok::<ValueModel, FaultModel>(ValueModel::Int((x - y) as i64))
        } else {
            Err(FaultModel::Overflow(ArithOpV2::Sub))
        },
        eval_result(combine_ints(ArithOpV2::Mul, x, y), env) == if i64::MIN <= x * y <= i64::MAX {
            Ok::<ValueModel, FaultModel>(ValueModel::Int((x * y) as i64))
        } else {
            Err(FaultModel::Overflow(ArithOpV2::Mul))
        },
{
    lemma_arith_literals(ArithOpV2::Add, x, y, env);
    lemma_arith_literals(ArithOpV2::Sub, x, y, env);
    lemma_arith_literals(ArithOpV2::Mul, x, y, env);
}

/// The expression a lowered binary operator over two integer operands
/// denotes, as the expression of their literals.
proof fn lemma_literal_pair_view(x: L3ExprV2, a: i64, b: i64)
    ensures
        forall|op: CmpOpV2| x@ == ExprModel::Cmp(op, Box::new(ExprModel::Int(a)), Box::new(ExprModel::Int(b)))
            ==> x == compare_ints(op, a, b),
        forall|op: ArithOpV2| x@ == ExprModel::Arith(op, Box::new(ExprModel::Int(a)), Box::new(ExprModel::Int(b)))
            ==> x == combine_ints(op, a, b),
{
    match x {
        L3ExprV2::Cmp(op, l, r) => {
            assert((*l)@ == expr_model(*l));
            assert((*r)@ == expr_model(*r));
        },
        L3ExprV2::Arith(op, l, r) => {
            assert((*l)@ == expr_model(*l));
            assert((*r)@ == expr_model(*r));
        },
        _ => {},
    }
}

/// Lowering keeps each surface operator's meaning: when both operands of a
/// surface comparison or sum, difference or product lower to integers `a`
/// and `b`, the operator lowers, and whatever expression it lowers to
/// evaluates in every environment to the mathematical comparison of `a` and
/// `b`, or to their sum, difference or product when that fits in 64 bits
/// (an overflow fault otherwise). Division and witness composition do not
/// lower.
pub proof fn lemma_lowered_operator_means(
    op: SurfaceBinOp,
    lhs: SurfaceExpr,
    rhs: SurfaceExpr,
    sc: ScopeModel,
    locals: Set<Seq<char>>,
    a: i64,
    b: i64,
    x: L3ExprV2,
    env: EnvModel,
)
    requires
        lower_spec(lhs, sc, locals) == Ok::<ExprModel, LowerFault>(ExprModel::Int(a)),
        lower_spec(rhs, sc, locals) == Ok::<ExprModel, LowerFault>(ExprModel::Int(b)),
    ensures
        ({
            let lowered = lower_spec(SurfaceExpr::Bin { op, lhs: Box::new(lhs), rhs: Box::new(rhs) }, sc, locals);
            &&& (op is Div || op is Then || op is And) <==> lowered is Err
            &&& lowered == Ok::<ExprModel, LowerFault>(x@) ==> {
                &&& op is Lt ==> eval_result(x, env) == Ok::<ValueModel, FaultModel>(ValueModel::Bool(a < b))
                &&& op is Le ==> eval_result(x, env) == Ok::<ValueModel, FaultModel>(ValueModel::Bool(a <= b))
                &&& op is Gt ==> eval_result(x, env) == Ok::<ValueModel, FaultModel>(ValueModel::Bool(a > b))
                &&& op is Ge ==> eval_result(x, env) == Ok::<ValueModel, FaultModel>(ValueModel::Bool(a >= b))
                &&& op is Eq ==> eval_result(x, env) == Ok::<ValueModel, FaultModel>(ValueModel::Bool(a == b))
                &&& op is Ne ==> eval_result(x, env) == Ok::<ValueModel, FaultModel>(ValueModel::Bool(a != b))
                &&& op is Add ==> eval_result(x, env) == if i64::MIN <= a + b <= i64::MAX {
                    Ok::<ValueModel, FaultModel>(ValueModel::Int((a + b) as i64))
                } else {
                    Err(FaultModel::Overflow(ArithOpV2::Add))
                }
                &&& op is Sub ==> eval_result(x, env) == if i64::MIN <= a - b <= i64::MAX {
                    Ok::<ValueModel, FaultModel>(ValueModel::Int((a - b) as i64))
                } else {
                    Err(FaultModel::Overflow(ArithOpV2::Sub))
                }
                &&& op is Mul ==> eval_result(x, env) == if i64::MIN <= a * b <= i64::MAX {
                    Ok::<ValueModel, FaultModel>(ValueModel::Int((a * b) as i64))
                } else {
                    Err(FaultModel::Overflow(ArithOpV2::Mul))
                }
            }
        }),
{
    lemma_literal_pair_view(x, a, b);
    lemma_integer_comparisons(a, b, env);
    lemma_integer_arithmetic(a, b, env);
}

/// What every environment a run builds from `let`s keeps: nothing but
/// `let`s bound, in ascending order of names.
spec fn lets_only(env: EnvModel) -> bool {
    &&& env.locals.len() == 0
    &&& env.inputs.len() == 0
    &&& env.facts.len() == 0
    &&& env.functions.len() == 0
    &&& env.schemas.len() == 0
    &&& keys_ascending(env.lets)
}

proof fn lemma_bound_lets_only(items: Seq<L3PlanItemV2>, n: nat)
    requires
        bind_lets(items, n) is Ok,
    ensures
        lets_only(bind_lets(items, n)->Ok_0),
    decreases n,
{
    if n > 0 && n <= items.len() {
        lemma_bound_lets_only(items, (n - 1) as nat);
        let env = bind_lets(items, (n - 1) as nat)->Ok_0;
        if let L3PlanItemV2::Let { name, value } = items[n - 1] {
            if let Ok(v) = eval_result(value, env) {
                lemma_insert_get(env.lets, name@, v, name@);
            }
        }
    }
}

proof fn lemma_bound_prefix(items: Seq<L3PlanItemV2>, k: nat, n: nat)
    requires
        k <= n <= items.len(),
        bind_lets(items, n) is Ok,
    ensures
        bind_lets(items, k) is Ok,
    decreases n - k,
{
    if k < n {
        lemma_bound_prefix(items, k, (n - 1) as nat);
    }
}

proof fn lemma_binding_kept(items: Seq<L3PlanItemV2>, i: nat, k: nat, a: Seq<char>)
    requires
        i <= k <= items.len(),
        bind_lets(items, k) is Ok,
        forall|m: int| i <= m < k ==> !(#[trigger] items[m] matches L3PlanItemV2::Let { name, .. } && name@ == a),
    ensures
        bind_lets(items, i) is Ok,
        assoc_get(bind_lets(items, k)->Ok_0.lets, a) == assoc_get(bind_lets(items, i)->Ok_0.lets, a),
    decreases k - i,
{
    if i < k {
        lemma_bound_prefix(items, (k - 1) as nat, k);
        lemma_binding_kept(items, i, (k - 1) as nat, a);
        let env = bind_lets(items, (k - 1) as nat)->Ok_0;
        lemma_bound_lets_only(items, (k - 1) as nat);
        if let L3PlanItemV2::Let { name, value } = items[k - 1] {
            if let Ok(v) = eval_result(value, env) {
                lemma_insert_get(env.lets, name@, v, a);
            }
        }
    }
}

/// A run evaluates each `let` with every earlier `let` in scope: when the
/// `i`-th item binds `a` and the `j`-th item is a `let` whose value reads
/// `a`, with no other `let` of that name in between, the `j`-th `let` is
/// bound to the value `a` was bound to, once the items before it are bound.
pub proof fn lemma_let_reads_earlier_let(items: Seq<L3PlanItemV2>, i: int, j: int)
    requires
        0 <= i < j < items.len(),
        items[i] is Let,
        items[j] matches L3PlanItemV2::Let { value: L3ExprV2::LetRef(r), .. } && r@ == items[i]->Let_name@,
        forall|m: int| i < m < j ==> !(#[trigger] items[m] matches L3PlanItemV2::Let { name, .. } && name@
            == items[i]->Let_name@),
        bind_lets(items, j as nat) is Ok,
    ensures
        bind_lets(items, (i + 1) as nat) is Ok,
        bind_lets(items, (j + 1) as nat) is Ok,
        assoc_get(bind_lets(items, (j + 1) as nat)->Ok_0.lets, items[j]->Let_name@) == assoc_get(
            bind_lets(items, (i + 1) as nat)->Ok_0.lets,
            items[i]->Let_name@,
        ),
        assoc_get(bind_lets(items, (i + 1) as nat)->Ok_0.lets, items[i]->Let_name@) is Some,
{
    let a = items[i]->Let_name@;
    lemma_bound_prefix(items, (i + 1) as nat, j as nat);
    lemma_binding_kept(items, (i + 1) as nat, j as nat, a);
    let e0 = bind_lets(items, i as nat)->Ok_0;
    lemma_bound_prefix(items, i as nat, j as nat);
    lemma_bound_lets_only(items, i as nat);
    if let L3PlanItemV2::Let { name, value } = items[i] {
        let v = eval_result(value, e0)->Ok_0;
        lemma_insert_get_own(e0.lets, name@, v);
    }
    let env = bind_lets(items, j as nat)->Ok_0;
    lemma_bound_lets_only(items, j as nat);
    let w = assoc_get(env.lets, a)->0;
    assert(binding(env, a) == Some(w));
    if let L3PlanItemV2::Let { name, value } = items[j] {
        lemma_stored_read(value, env, w);
        assert(starting_budget(env) is None);
        lemma_insert_get_own(env.lets, name@, w);
    }
}

proof fn lemma_no_rules_among_lets(items: Seq<L3PlanItemV2>, n: nat)
    requires
        n <= items.len(),
        forall|m: int| 0 <= m < n ==> #[trigger] items[m] is Let,
    ensures
        plan_rules(items, n) == Seq::<RuleModel>::empty(),
    decreases n,
{
    if n > 0 {
        lemma_no_rules_among_lets(items, (n - 1) as nat);
    }
}

/// A rule's body runs with the run's `let`s in scope: in a plan of `let`s
/// followed by one rule with no dependencies whose body reads a bound `let`
/// `a`, the run commits exactly that rule, with `a`'s value, and stops with
/// every rule committed.
pub proof fn lemma_rule_reads_let(items: Seq<L3PlanItemV2>, a: Seq<char>, v: ValueModel)
    requires
        items.len() > 0,
        forall|m: int| 0 <= m < items.len() - 1 ==> #[trigger] items[m] is Let,
        items.last() matches L3PlanItemV2::Rule { body: L3ExprV2::LetRef(x), depends_on, .. } && x@ == a
            && depends_on@.len() == 0,
        bind_lets(items, (items.len() - 1) as nat) matches Ok(env) && assoc_get(env.lets, a) == Some(v),
    ensures
        run_spec(items).facts == seq![
            FactModel { ordinal: 0, rule: items.last()->Rule_name@, value: v, depends_on: Seq::empty() },
        ],
        run_spec(items).stop == StopModel::AllRulesCommitted,
{
    let n = (items.len() - 1) as nat;
    let env = bind_lets(items, n)->Ok_0;
    lemma_bound_lets_only(items, n);
    lemma_no_rules_among_lets(items, n);
    assert(bind_lets(items, items.len()) == bind_lets(items, n));
    let rules = plan_rules(items, items.len());
    if let L3PlanItemV2::Rule { name, body, depends_on } = items.last() {
        assert(rules == seq![(name@, body, names(depends_on@))]);
        assert(names(depends_on@) =~= Seq::<Seq<char>>::empty());
        assert(binding(env, a) == Some(v));
        lemma_stored_read(body, env, v);
        assert(eligible(rules[0], Set::empty()));
        assert(first_eligible(rules, Set::empty(), 0) == Some(0int));
        let env2 = EnvModel { facts: insert_pairs(env.facts, name@, v), ..env };
        let c1 = Set::<Seq<char>>::empty().insert(name@);
        assert(!eligible(rules[0], c1));
        assert(first_eligible(rules, c1, 1) is None);
        assert(first_eligible(rules, c1, 0) is None);
        assert(pending_names(rules, c1, 0) == Seq::<Seq<char>>::empty());
        assert(pending_names(rules, c1, 1) =~= Seq::<Seq<char>>::empty());
        assert(agenda(rules, env2, Seq::empty().push(fact_for(rules[0], v, 0)), c1).stop == StopModel::AllRulesCommitted);
    }
}

/// Literals evaluate to themselves, and a name with nothing bound to it
/// faults as unbound, in every environment.
pub proof fn lemma_literals_and_unbound_names(n: i64, t: bool, name: String, env: EnvModel)
    ensures
        eval_result(L3ExprV2::Int(n), env) == Ok::<ValueModel, FaultModel>(ValueModel::Int(n)),
        eval_result(L3ExprV2::Bool(t), env) == Ok::<ValueModel, FaultModel>(ValueModel::Bool(t)),
        binding(env, name@) is None ==> eval_result(L3ExprV2::LetRef(name), env) == Err::<ValueModel, FaultModel>(
            FaultModel::Unbound(name@),
        ),
        assoc_get(env.facts, name@) is None ==> eval_result(L3ExprV2::RuleFact(name), env) == Err::<
            ValueModel,
            FaultModel,
        >(FaultModel::Unbound(name@)),
{
    reveal(eval_result);
    if let Some(st) = starting_budget(env) {
        let (t0, x1) = tick_spec(st);
        assert(t0 is Ok);
    }
}

/// How lowering resolves a name: with helpers enabled, a local first;
/// then a nullary constructor as that constructor of its sum; then a
/// local or a `let` as a read of it; then, in a rule body, an earlier rule
/// as a read of its fact; anything else is unresolved.
pub proof fn lemma_names_resolve(name: String, sc: ScopeModel, locals: Set<Seq<char>>)
    ensures
        ({
            let r = lower_spec(SurfaceExpr::Var(name), sc, locals);
            let n = name@;
            let ctor = assoc_get(sc.nullary, n);
            &&& sc.helper_enabled && locals.contains(n) ==> r == Ok::<ExprModel, LowerFault>(ExprModel::LetRef(n))
            &&& !(sc.helper_enabled && locals.contains(n)) && ctor is Some ==> r == Ok::<ExprModel, LowerFault>(
                ExprModel::NullaryVariant { nominal_sum: ctor->0@, variant: n },
            )
            &&& ctor is None && (locals.contains(n) || sc.lets.contains(n)) ==> r == Ok::<ExprModel, LowerFault>(
                ExprModel::LetRef(n),
            )
            &&& ctor is None && !locals.contains(n) && !sc.lets.contains(n) && sc.in_rule && sc.rules.contains(n) ==> r
                == Ok::<ExprModel, LowerFault>(ExprModel::RuleFact(n))
            &&& ctor is None && !locals.contains(n) && !sc.lets.contains(n) && !(sc.in_rule && sc.rules.contains(n)) ==> r
                == Err::<ExprModel, LowerFault>(LowerFault::Unresolved(n))
        }),
{
}

/// Literals lower to themselves: a boolean to that boolean, a string to
/// that string, a numeral to the integer it spells when it fits in 64 bits.
pub proof fn lemma_literals_lower(b: bool, text: String, sc: ScopeModel, locals: Set<Seq<char>>)
    ensures
        lower_spec(SurfaceExpr::Bool(b), sc, locals) == Ok::<ExprModel, LowerFault>(ExprModel::Bool(b)),
        lower_spec(SurfaceExpr::Str(text), sc, locals) == Ok::<ExprModel, LowerFault>(ExprModel::Str(text@)),
        int_literal(text@) matches Some(k) ==> lower_spec(SurfaceExpr::Num(text), sc, locals) == Ok::<
            ExprModel,
            LowerFault,
        >(ExprModel::Int(k)),
{
}

proof fn lemma_digits_prefix(d: Seq<char>, c: char, k: nat)
    requires
        k <= d.len(),
    ensures
        digits_value(d.push(c), k) == digits_value(d, k),
    decreases k,
{
    if k > 0 {
        lemma_digits_prefix(d, c, (k - 1) as nat);
        assert(d.push(c)[k - 1] == d[k - 1]);
    }
}

proof fn lemma_decimal_digits(n: nat)
    ensures
        decimal(n).len() > 0,
        all_digits(decimal(n)),
        digits_value(decimal(n), decimal(n).len()) == n,
        decimal(n)[0] != '-' && decimal(n)[0] != '+',
    decreases n,
{
    if n < 10 {
        let e = decimal(n);
        assert(e == seq![digit_char(n as int)]);
        assert((digit_char(n as int) as int) == n + 48);
        assert(digits_value(e, 0) == 0);
        assert(digits_value(e, 1) == digits_value(e, 0) * 10 + (e[0] as int - 48));
    } else {
        let q = n / 10;
        let r = n % 10;
        lemma_decimal_digits(q);
        let d = decimal(q);
        lemma_digits_prefix(d, digit_char(r as int), d.len());
        assert((digit_char(r as int) as int) == r + 48);
        assert(n == q * 10 + r) by (nonlinear_arith)
            requires
                q == n / 10,
                r == n % 10,
        ;
        let e = decimal(n);
        assert(e == d.push(digit_char(r as int)));
        assert(e[0] == d[0]);
        assert(e.len() == d.len() + 1);
        assert(e[d.len() as int] == digit_char(r as int));
        assert(digits_value(e, e.len()) == digits_value(e, d.len()) * 10 + (e[d.len() as int] as int - 48));
        assert(all_digits(e)) by {
            assert forall|i: int| 0 <= i < e.len() implies ascii_digit(#[trigger] e[i]) by {
                if i < d.len() {
                    assert(e[i] == d[i]);
                }
            }
        }
    }
}

/// A numeral written in decimal lowers to the integer it denotes, with or
/// without a leading `-` or `+`, when that integer fits in 64 bits.
pub proof fn lemma_decimal_numerals_lower(n: nat, text: String, sc: ScopeModel, locals: Set<Seq<char>>)
    ensures
        text@ == decimal(n) && n <= i64::MAX ==> lower_spec(SurfaceExpr::Num(text), sc, locals) == Ok::<
            ExprModel,
            LowerFault,
        >(ExprModel::Int(n as i64)),
        text@ == seq!['+'] + decimal(n) && n <= i64::MAX ==> lower_spec(SurfaceExpr::Num(text), sc, locals) == Ok::<
            ExprModel,
            LowerFault,
        >(ExprModel::Int(n as i64)),
        text@ == seq!['-'] + decimal(n) && n <= 0x8000_0000_0000_0000 ==> lower_spec(SurfaceExpr::Num(text), sc, locals)
            == Ok::<ExprModel, LowerFault>(ExprModel::Int((-n) as i64)),
{
    lemma_decimal_digits(n);
    let d = decimal(n);
    assert((seq!['+'] + d).drop_first() =~= d);
    assert((seq!['-'] + d).drop_first() =~= d);
}

} // verus!
