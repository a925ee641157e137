//! The meaning of an evaluation: what value or fault an expression yields
//! under an environment model, and what the budget looks like afterwards.
use std::sync::Arc;
use vstd::prelude::*;

use crate::keymap::{assoc_get, insert_pairs, lemma_insert_get_own, KeyMap};
use crate::l3_v2::budget::{
    allocation_spec, lemma_walk_exhausts, sat, tick_spec, value_charge_spec, EvalBudget,
};
use crate::l3_v2::schema::validate_spec;
use crate::l3_v2::{
    model_type_text, schema_type_name, ArithOpV2, CmpOpV2, EvalFault, FaultModel, L3ExprV2,
    L3FunctionDef, L3PatternV2, L3Schema, L3SchemaType, L3ValueV2, ValueModel,
};
use crate::text::byte_len;

verus! {

/// Model of an evaluation environment.
pub struct EnvModel {
    pub inputs: Seq<(Seq<char>, ValueModel)>,
    pub lets: Seq<(Seq<char>, ValueModel)>,
    pub facts: Seq<(Seq<char>, ValueModel)>,
    pub locals: Seq<(Seq<char>, ValueModel)>,
    pub functions: Seq<(Seq<char>, Arc<L3FunctionDef>)>,
    pub schemas: Seq<(Seq<char>, L3Schema)>,
}

/// Remaining steps of a budget; zero without one.
pub open spec fn fuel(b: Option<EvalBudget>) -> nat {
    match b {
        Some(x) => if x.steps <= x.max_steps {
            (x.max_steps - x.steps) as nat
        } else {
            0
        },
        None => 0,
    }
}

/// A nested evaluation may start from budget `b` inside an evaluation that
/// began with `f0` remaining steps. Budgets only shrink, so this always holds
/// along an evaluation; it is what makes the definitions below well founded.
pub open spec fn may_descend(b: Option<EvalBudget>, f0: nat) -> bool {
    fuel(b) < f0 || b is None
}

/// Outcome of evaluating, with the budget after it.
pub open spec fn reserve(b: Option<EvalBudget>, nodes: usize, bytes: usize) -> (
    Result<(), FaultModel>,
    Option<EvalBudget>,
) {
    match b {
        Some(x) => (allocation_spec(x, nodes, bytes).0, Some(allocation_spec(x, nodes, bytes).1)),
        None => (Ok(()), None),
    }
}

/// Outcome of charging for a copy of `v` rooted at `depth`.
pub open spec fn charge(b: Option<EvalBudget>, v: ValueModel, depth: int) -> (
    Result<(), FaultModel>,
    Option<EvalBudget>,
) {
    match b {
        Some(x) => (value_charge_spec(x, v, depth).0, Some(value_charge_spec(x, v, depth).1)),
        None => (Ok(()), None),
    }
}

/// Bytes reserved per value slot.
pub open spec fn value_slot() -> int {
    vstd::layout::size_of::<L3ValueV2>() as int
}

/// Bytes reserved per named-value slot.
pub open spec fn entry_slot() -> int {
    vstd::layout::size_of::<(String, L3ValueV2)>() as int
}

/// Name reported for a nesting fault.
pub open spec fn func_label(func: Option<Seq<char>>) -> Seq<char> {
    match func {
        Some(f) => f,
        None => "<eval>"@,
    }
}

/// Budget after leaving one level of expression nesting.
pub open spec fn leave_depth(b: Option<EvalBudget>) -> Option<EvalBudget> {
    match b {
        Some(y) => Some(
            EvalBudget {
                recursion_depth: if y.recursion_depth > 0 {
                    (y.recursion_depth - 1) as usize
                } else {
                    0
                },
                ..y
            },
        ),
        None => None,
    }
}

/// Budget after returning from a helper call.
pub open spec fn leave_call(b: Option<EvalBudget>) -> Option<EvalBudget> {
    match b {
        Some(y) => Some(EvalBudget { call_depth: (y.call_depth - 1) as usize, ..y }),
        None => None,
    }
}

/// A local, then a `let`, then an input of that name.
pub open spec fn binding(env: EnvModel, name: Seq<char>) -> Option<ValueModel> {
    match assoc_get(env.locals, name) {
        Some(v) => Some(v),
        None => match assoc_get(env.lets, name) {
            Some(v) => Some(v),
            None => assoc_get(env.inputs, name),
        },
    }
}

/// Checked 64-bit arithmetic.
pub open spec fn arith_spec(op: ArithOpV2, x: i64, y: i64) -> Option<i64> {
    let r: int = match op {
        ArithOpV2::Add => x + y,
        ArithOpV2::Sub => x - y,
        ArithOpV2::Mul => x * y,
    };
    if i64::MIN <= r <= i64::MAX {
        Some(r as i64)
    } else {
        None
    }
}

/// Integer ordering comparison.
pub open spec fn order_spec(op: CmpOpV2, x: i64, y: i64) -> bool {
    match op {
        CmpOpV2::Lt => x < y,
        CmpOpV2::Le => x <= y,
        CmpOpV2::Gt => x > y,
        CmpOpV2::Ge => x >= y,
        CmpOpV2::Eq => x == y,
        CmpOpV2::Ne => x != y,
    }
}

/// Index of the first arm whose constructor is `variant`.
pub open spec fn arm_index(arms: Seq<(L3PatternV2, L3ExprV2)>, variant: Seq<char>) -> Option<int>
    decreases arms.len(),
{
    if arms.len() == 0 {
        None
    } else if arms[0].0->Ctor_variant@ == variant {
        Some(0)
    } else {
        match arm_index(arms.drop_first(), variant) {
            Some(i) => Some(i + 1),
            None => None,
        }
    }
}

/// Charge, in order, for every name and a copy of every value of `entries`.
pub open spec fn charge_entries(
    b: Option<EvalBudget>,
    entries: Seq<(Seq<char>, ValueModel)>,
    i: nat,
) -> (Result<(), FaultModel>, Option<EvalBudget>)
    decreases entries.len() - i,
{
    if i >= entries.len() {
        (Ok(()), b)
    } else {
        let (r1, b1) = reserve(b, 0, byte_len(entries[i as int].0));
        if r1 is Err {
            (r1, b1)
        } else {
            let (r2, b2) = charge(b1, entries[i as int].1, 1);
            if r2 is Err {
                (r2, b2)
            } else {
                charge_entries(b2, entries, i + 1)
            }
        }
    }
}

/// Bind the named pattern binders to the constructor payloads, charging for
/// each copy.
pub open spec fn bind_spec(
    b: Option<EvalBudget>,
    binders: Seq<Option<String>>,
    args: Seq<ValueModel>,
    i: nat,
    locals: Seq<(Seq<char>, ValueModel)>,
) -> (Result<Seq<(Seq<char>, ValueModel)>, FaultModel>, Option<EvalBudget>)
    decreases binders.len() - i,
{
    if i >= binders.len() || i >= args.len() {
        (Ok(locals), b)
    } else {
        match binders[i as int] {
            Some(name) => {
                let (r, b1) = charge(b, args[i as int], 1);
                match r {
                    Err(f) => (Err(f), b1),
                    Ok(_) => bind_spec(
                        b1,
                        binders,
                        args,
                        i + 1,
                        insert_pairs(locals, name@, args[i as int]),
                    ),
                }
            },
            None => bind_spec(b, binders, args, i + 1, locals),
        }
    }
}

/// Total byte length of the first `n` parameter names, saturating.
pub open spec fn param_name_bytes(params: Seq<(String, Option<L3SchemaType>)>, n: nat) -> int
    decreases n,
{
    if n == 0 || n > params.len() {
        0
    } else {
        sat(param_name_bytes(params, (n - 1) as nat) + byte_len(params[n - 1].0@))
    }
}

/// Locals of a helper body: each parameter bound to its argument, in order.
pub open spec fn bind_params(
    params: Seq<(String, Option<L3SchemaType>)>,
    vals: Seq<ValueModel>,
    n: nat,
) -> Seq<(Seq<char>, ValueModel)>
    decreases n,
{
    if n == 0 || n > params.len() || n > vals.len() {
        Seq::empty()
    } else {
        insert_pairs(bind_params(params, vals, (n - 1) as nat), params[n - 1].0@, vals[n - 1])
    }
}

/// The contract-violation fault for a value that failed its schema.
pub open spec fn violation(
    func: Seq<char>,
    param: Option<Seq<char>>,
    ty: L3SchemaType,
    v: ValueModel,
    detail: Seq<char>,
) -> FaultModel {
    FaultModel::ContractViolation {
        func,
        param,
        expected: schema_type_name(ty),
        found: model_type_text(v),
        path: if ty.is_builtin() {
            None
        } else {
            Some(detail)
        },
    }
}

/// Check the parameter contracts of `def` from index `i` on.
pub open spec fn param_contracts(
    def: L3FunctionDef,
    func: Seq<char>,
    vals: Seq<ValueModel>,
    i: nat,
) -> Result<(), FaultModel>
    decreases def.params@.len() - i,
{
    if i >= def.params@.len() || i >= vals.len() {
        Ok(())
    } else {
        match def.params@[i as int].1 {
            Some(ty) => match validate_spec(vals[i as int], ty, *def.schemas, "<root>"@) {
                Err(detail) => Err(
                    violation(func, Some(def.params@[i as int].0@), ty, vals[i as int], detail),
                ),
                Ok(()) => param_contracts(def, func, vals, i + 1),
            },
            None => param_contracts(def, func, vals, i + 1),
        }
    }
}

/// Arguments of a constructor or call expression.
pub open spec fn arg_exprs(e: L3ExprV2) -> Seq<L3ExprV2> {
    match e {
        L3ExprV2::Ctor { args, .. } => args@,
        L3ExprV2::Call { args, .. } => args@,
        _ => Seq::empty(),
    }
}

/// The value an expression evaluates to, or the fault that stops it, with
/// the budget afterwards.
pub open spec fn eval_spec(
    e: L3ExprV2,
    env: EnvModel,
    b: Option<EvalBudget>,
    func: Option<Seq<char>>,
) -> (Result<ValueModel, FaultModel>, Option<EvalBudget>)
    decreases fuel(b), e, 3nat, 0nat,
{
    match b {
        None => body_spec(e, env, None, func, 0),
        Some(x) => {
            let (t, x1) = tick_spec(x);
            match t {
                Err(f) => (Err(f), Some(x1)),
                Ok(_) => {
                    let x2 = EvalBudget { recursion_depth: (x1.recursion_depth + 1) as usize, ..x1 };
                    if x1.recursion_depth + 1 > x1.max_recursion_depth {
                        (
                            Err(
                                FaultModel::CallDepthExceeded {
                                    limit: x1.max_recursion_depth,
                                    func: func_label(func),
                                },
                            ),
                            Some(x1),
                        )
                    } else {
                        let (r, b3) = body_spec(e, env, Some(x2), func, fuel(b));
                        (r, leave_depth(b3))
                    }
                },
            }
        },
    }
}

/// One evaluation step after the budget bookkeeping.
pub open spec fn body_spec(
    e: L3ExprV2,
    env: EnvModel,
    b: Option<EvalBudget>,
    func: Option<Seq<char>>,
    f0: nat,
) -> (Result<ValueModel, FaultModel>, Option<EvalBudget>)
    decreases f0, e, 2nat, 0nat,
{
    match e {
        L3ExprV2::Int(n) => (Ok(ValueModel::Int(n)), b),
        L3ExprV2::Bool(v) => (Ok(ValueModel::Bool(v)), b),
        L3ExprV2::Str(s) => {
            let (r, b1) = reserve(b, 1, byte_len(s@));
            match r {
                Err(f) => (Err(f), b1),
                Ok(_) => (Ok(ValueModel::Str(s@)), b1),
            }
        },
        L3ExprV2::LetRef(name) => match binding(env, name@) {
            None => (Err(FaultModel::Unbound(name@)), b),
            Some(v) => {
                let (r, b1) = charge(b, v, 1);
                match r {
                    Err(f) => (Err(f), b1),
                    Ok(_) => (Ok(v), b1),
                }
            },
        },
        L3ExprV2::RuleFact(rule) => match assoc_get(env.facts, rule@) {
            None => (Err(FaultModel::Unbound(rule@)), b),
            Some(v) => {
                let (r, b1) = charge(b, v, 1);
                match r {
                    Err(f) => (Err(f), b1),
                    Ok(_) => (Ok(v), b1),
                }
            },
        },
        L3ExprV2::NullaryVariant { nominal_sum, variant } => {
            let (r, b1) = reserve(b, 1, sat(byte_len(nominal_sum@) + byte_len(variant@)) as usize);
            match r {
                Err(f) => (Err(f), b1),
                Ok(_) => (
                    Ok(
                        ValueModel::Ctor {
                            nominal_sum: nominal_sum@,
                            variant: variant@,
                            args: Seq::empty(),
                        },
                    ),
                    b1,
                ),
            }
        },
        L3ExprV2::Ctor { .. } => ctor_spec(e, env, b, func, f0),
        L3ExprV2::Record { .. } => record_spec(e, env, b, func, f0),
        L3ExprV2::Field(..) => field_spec(e, env, b, func, f0),
        L3ExprV2::Arith(..) => arith_expr_spec(e, env, b, func, f0),
        L3ExprV2::Cmp(..) => relation_spec(e, env, b, func, f0),
        L3ExprV2::Match { .. } => match_spec(e, env, b, func, f0),
        L3ExprV2::Call { .. } => call_spec(e, env, b, func, f0),
    }
}

/// A constructor application: reserve the node, then evaluate and charge
/// each payload in order.
pub open spec fn ctor_spec(
    e: L3ExprV2,
    env: EnvModel,
    b: Option<EvalBudget>,
    func: Option<Seq<char>>,
    f0: nat,
) -> (Result<ValueModel, FaultModel>, Option<EvalBudget>)
    decreases f0, e, 1nat, 0nat,
{
    match e {
        L3ExprV2::Ctor { nominal_sum, variant, args } => {
            let bytes = sat(
                byte_len(nominal_sum@) + byte_len(variant@) + sat(args@.len() * value_slot()),
            );
            let (r, b1) = reserve(b, 1, bytes as usize);
            match r {
                Err(f) => (Err(f), b1),
                Ok(_) => {
                    let (rl, b2) = eval_list_spec(e, env, b1, func, f0, 0, Seq::empty(), true);
                    match rl {
                        Err(f) => (Err(f), b2),
                        Ok(vals) => (
                            Ok(
                                ValueModel::Ctor {
                                    nominal_sum: nominal_sum@,
                                    variant: variant@,
                                    args: vals,
                                },
                            ),
                            b2,
                        ),
                    }
                },
            }
        },
        _ => (Err(FaultModel::NoMatchingArm), b),
    }
}

/// Evaluate the arguments of `parent` from index `i` on, in order,
/// optionally charging for each result.
pub open spec fn eval_list_spec(
    parent: L3ExprV2,
    env: EnvModel,
    b: Option<EvalBudget>,
    func: Option<Seq<char>>,
    f0: nat,
    i: nat,
    acc: Seq<ValueModel>,
    charge_each: bool,
) -> (Result<Seq<ValueModel>, FaultModel>, Option<EvalBudget>)
    decreases f0, parent, 0nat, arg_exprs(parent).len() - i,
{
    let args = arg_exprs(parent);
    if i >= args.len() {
        (Ok(acc), b)
    } else if !may_descend(b, f0) {
        (Ok(acc), b)
    } else {
        let (r, b1) = eval_spec(args[i as int], env, b, func);
        match r {
            Err(f) => (Err(f), b1),
            Ok(v) => {
                if charge_each {
                    let (rc, b2) = charge(b1, v, 2);
                    match rc {
                        Err(f) => (Err(f), b2),
                        Ok(_) => eval_list_spec(parent, env, b2, func, f0, i + 1, acc.push(v), charge_each),
                    }
                } else {
                    eval_list_spec(parent, env, b1, func, f0, i + 1, acc.push(v), charge_each)
                }
            },
        }
    }
}

/// A record literal: reserve the node, then for each field reserve its name,
/// evaluate it and charge for its value.
pub open spec fn record_spec(
    e: L3ExprV2,
    env: EnvModel,
    b: Option<EvalBudget>,
    func: Option<Seq<char>>,
    f0: nat,
) -> (Result<ValueModel, FaultModel>, Option<EvalBudget>)
    decreases f0, e, 1nat, 0nat,
{
    match e {
        L3ExprV2::Record { nominal_config, fields } => {
            let bytes = sat(byte_len(nominal_config@) + sat(fields@.len() * entry_slot()));
            let (r, b1) = reserve(b, 1, bytes as usize);
            match r {
                Err(f) => (Err(f), b1),
                Ok(_) => {
                    let (rl, b2) = eval_fields_spec(e, env, b1, func, f0, 0, Seq::empty());
                    match rl {
                        Err(f) => (Err(f), b2),
                        Ok(vals) => (
                            Ok(ValueModel::Record { nominal_config: nominal_config@, fields: vals }),
                            b2,
                        ),
                    }
                },
            }
        },
        _ => (Err(FaultModel::NoMatchingArm), b),
    }
}

/// Fields of a record expression.
pub open spec fn field_exprs(e: L3ExprV2) -> Seq<(String, L3ExprV2)> {
    match e {
        L3ExprV2::Record { fields, .. } => fields@,
        _ => Seq::empty(),
    }
}

/// Evaluate the fields of record expression `parent` from index `i` on.
pub open spec fn eval_fields_spec(
    parent: L3ExprV2,
    env: EnvModel,
    b: Option<EvalBudget>,
    func: Option<Seq<char>>,
    f0: nat,
    i: nat,
    acc: Seq<(Seq<char>, ValueModel)>,
) -> (Result<Seq<(Seq<char>, ValueModel)>, FaultModel>, Option<EvalBudget>)
    decreases f0, parent, 0nat, field_exprs(parent).len() - i,
{
    let fields = field_exprs(parent);
    if i >= fields.len() {
        (Ok(acc), b)
    } else {
        let (r0, b0) = reserve(b, 0, byte_len(fields[i as int].0@));
        match r0 {
            Err(f) => (Err(f), b0),
            Ok(_) => {
                if !may_descend(b0, f0) {
                    (Ok(acc), b0)
                } else {
                    let (r, b1) = eval_spec(fields[i as int].1, env, b0, func);
                    match r {
                        Err(f) => (Err(f), b1),
                        Ok(v) => {
                            let (rc, b2) = charge(b1, v, 2);
                            match rc {
                                Err(f) => (Err(f), b2),
                                Ok(_) => eval_fields_spec(
                                    parent,
                                    env,
                                    b2,
                                    func,
                                    f0,
                                    i + 1,
                                    acc.push((fields[i as int].0@, v)),
                                ),
                            }
                        },
                    }
                }
            },
        }
    }
}

/// Field projection: the first field of that name of a record value.
pub open spec fn field_spec(
    e: L3ExprV2,
    env: EnvModel,
    b: Option<EvalBudget>,
    func: Option<Seq<char>>,
    f0: nat,
) -> (Result<ValueModel, FaultModel>, Option<EvalBudget>)
    decreases f0, e, 1nat, 0nat,
{
    match e {
        L3ExprV2::Field(base, field) => {
            if !may_descend(b, f0) {
                (Err(FaultModel::NoMatchingArm), b)
            } else {
                let (r, b1) = eval_spec(*base, env, b, func);
                match r {
                    Err(f) => (Err(f), b1),
                    Ok(ValueModel::Record { fields, .. }) => match assoc_get(fields, field@) {
                        Some(v) => (Ok(v), b1),
                        None => (Err(FaultModel::NoSuchField(field@)), b1),
                    },
                    Ok(_) => (Err(FaultModel::NoSuchField(field@)), b1),
                }
            }
        },
        _ => (Err(FaultModel::NoMatchingArm), b),
    }
}

/// Checked arithmetic over two integer operands, left first.
pub open spec fn arith_expr_spec(
    e: L3ExprV2,
    env: EnvModel,
    b: Option<EvalBudget>,
    func: Option<Seq<char>>,
    f0: nat,
) -> (Result<ValueModel, FaultModel>, Option<EvalBudget>)
    decreases f0, e, 1nat, 0nat,
{
    match e {
        L3ExprV2::Arith(op, lhs, rhs) => {
            if !may_descend(b, f0) {
                (Err(FaultModel::NoMatchingArm), b)
            } else {
                let (ra, b1) = eval_spec(*lhs, env, b, func);
                match ra {
                    Err(f) => (Err(f), b1),
                    Ok(x) => {
                        if !may_descend(b1, f0) {
                            (Err(FaultModel::NoMatchingArm), b1)
                        } else {
                            let (rb, b2) = eval_spec(*rhs, env, b1, func);
                            match rb {
                                Err(f) => (Err(f), b2),
                                Ok(y) => match (x, y) {
                                    (ValueModel::Int(p), ValueModel::Int(q)) => match arith_spec(op, p, q) {
                                        Some(z) => (Ok(ValueModel::Int(z)), b2),
                                        None => (Err(FaultModel::Overflow(op)), b2),
                                    },
                                    _ => (
                                        Err(FaultModel::OperandShape("arithmetic requires Int operands"@)),
                                        b2,
                                    ),
                                },
                            }
                        }
                    },
                }
            }
        },
        _ => (Err(FaultModel::NoMatchingArm), b),
    }
}

/// Comparison: equality is structural, ordering needs integers.
pub open spec fn relation_spec(
    e: L3ExprV2,
    env: EnvModel,
    b: Option<EvalBudget>,
    func: Option<Seq<char>>,
    f0: nat,
) -> (Result<ValueModel, FaultModel>, Option<EvalBudget>)
    decreases f0, e, 1nat, 0nat,
{
    match e {
        L3ExprV2::Cmp(op, lhs, rhs) => {
            if !may_descend(b, f0) {
                (Err(FaultModel::NoMatchingArm), b)
            } else {
                let (ra, b1) = eval_spec(*lhs, env, b, func);
                match ra {
                    Err(f) => (Err(f), b1),
                    Ok(x) => {
                        if !may_descend(b1, f0) {
                            (Err(FaultModel::NoMatchingArm), b1)
                        } else {
                            let (rb, b2) = eval_spec(*rhs, env, b1, func);
                            match rb {
                                Err(f) => (Err(f), b2),
                                Ok(y) => {
                                    if op == CmpOpV2::Eq {
                                        (Ok(ValueModel::Bool(x == y)), b2)
                                    } else if op == CmpOpV2::Ne {
                                        (Ok(ValueModel::Bool(x != y)), b2)
                                    } else {
                                        match (x, y) {
                                            (ValueModel::Int(p), ValueModel::Int(q)) => (
                                                Ok(ValueModel::Bool(order_spec(op, p, q))),
                                                b2,
                                            ),
                                            _ => (
                                                Err(
                                                    FaultModel::OperandShape(
                                                        "ordering comparison requires Int operands"@,
                                                    ),
                                                ),
                                                b2,
                                            ),
                                        }
                                    }
                                },
                            }
                        }
                    },
                }
            }
        },
        _ => (Err(FaultModel::NoMatchingArm), b),
    }
}

/// The constructor name and payloads a scrutinee offers to patterns; a
/// boolean offers `true`/`false` with no payloads.
pub open spec fn scrutinee_shape(v: ValueModel) -> Option<(Seq<char>, Seq<ValueModel>)> {
    match v {
        ValueModel::Ctor { variant, args, .. } => Some((variant, args)),
        ValueModel::Bool(t) => Some(
            (
                if t {
                    "true"@
                } else {
                    "false"@
                },
                Seq::empty(),
            ),
        ),
        _ => None,
    }
}

/// Case analysis: the first arm naming the scrutinee's constructor runs with
/// its binders bound to the payloads.
pub open spec fn match_spec(
    e: L3ExprV2,
    env: EnvModel,
    b: Option<EvalBudget>,
    func: Option<Seq<char>>,
    f0: nat,
) -> (Result<ValueModel, FaultModel>, Option<EvalBudget>)
    decreases f0, e, 1nat, 0nat,
{
    match e {
        L3ExprV2::Match { scrutinee, arms } => {
            if !may_descend(b, f0) {
                (Err(FaultModel::NoMatchingArm), b)
            } else {
                let (rs, b1) = eval_spec(*scrutinee, env, b, func);
                match rs {
                    Err(f) => (Err(f), b1),
                    Ok(v) => match scrutinee_shape(v) {
                        None => (Err(FaultModel::OperandShape("match requires a sum value"@)), b1),
                        Some((variant, payloads)) => match arm_index(arms@, variant) {
                            None => (Err(FaultModel::NoMatchingArm), b1),
                            Some(k) => {
                                let binders = arms@[k].0->Ctor_binders@;
                                if binders.len() != payloads.len() {
                                    (Err(FaultModel::OperandShape("constructor arity mismatch"@)), b1)
                                } else {
                                    let (rc, b2) = charge_entries(
                                        b1,
                                        env.locals + env.lets + env.inputs + env.facts,
                                        0,
                                    );
                                    match rc {
                                        Err(f) => (Err(f), b2),
                                        Ok(_) => {
                                            let (rl, b3) = bind_spec(b2, binders, payloads, 0, env.locals);
                                            match rl {
                                                Err(f) => (Err(f), b3),
                                                Ok(locals) => {
                                                    if !may_descend(b3, f0) || !(0 <= k < arms@.len()) {
                                                        (Err(FaultModel::NoMatchingArm), b3)
                                                    } else {
                                                        eval_spec(
                                                            arms@[k].1,
                                                            EnvModel { locals, ..env },
                                                            b3,
                                                            func,
                                                        )
                                                    }
                                                },
                                            }
                                        },
                                    }
                                }
                            },
                        },
                    },
                }
            }
        },
        _ => (Err(FaultModel::NoMatchingArm), b),
    }
}

/// Budget after entering a helper call, or the fault for too deep a call.
pub open spec fn enter_call(b: Option<EvalBudget>, func: Seq<char>) -> (
    Result<(), FaultModel>,
    Option<EvalBudget>,
) {
    match b {
        Some(x) => if x.call_depth + 1 > x.max_call_depth {
            (Err(FaultModel::CallDepthExceeded { limit: x.max_call_depth, func }), Some(x))
        } else {
            (Ok(()), Some(EvalBudget { call_depth: (x.call_depth + 1) as usize, ..x }))
        },
        None => (Ok(()), None),
    }
}

/// A helper call: arguments evaluate eagerly in the caller's environment,
/// parameter contracts are checked, and the body runs with only its
/// parameters in scope; then the return contract is checked.
pub open spec fn call_spec(
    e: L3ExprV2,
    env: EnvModel,
    b: Option<EvalBudget>,
    func: Option<Seq<char>>,
    f0: nat,
) -> (Result<ValueModel, FaultModel>, Option<EvalBudget>)
    decreases f0, e, 1nat, 0nat,
{
    match e {
        L3ExprV2::Call { func: fname, args } => match assoc_get(env.functions, fname@) {
            None => (Err(FaultModel::Unbound(fname@)), b),
            Some(d) => {
                let def = *d;
                if def.params@.len() != args@.len() {
                    (Err(FaultModel::OperandShape("function arity mismatch"@)), b)
                } else {
                    let (r1, b1) = reserve(
                        b,
                        args@.len() as usize,
                        sat(args@.len() * value_slot()) as usize,
                    );
                    match r1 {
                        Err(f) => (Err(f), b1),
                        Ok(_) => {
                            let (rl, b2) = eval_list_spec(e, env, b1, func, f0, 0, Seq::empty(), false);
                            match rl {
                                Err(f) => (Err(f), b2),
                                Ok(vals) => match param_contracts(def, fname@, vals, 0) {
                                    Err(f) => (Err(f), b2),
                                    Ok(_) => {
                                        let (r3, b3) = enter_call(b2, fname@);
                                        match r3 {
                                            Err(f) => (Err(f), b3),
                                            Ok(_) => {
                                                let n = def.params@.len();
                                                let (r4, b4) = reserve(
                                                    b3,
                                                    n as usize,
                                                    sat(param_name_bytes(def.params@, n) + sat(n * entry_slot())) as usize,
                                                );
                                                match r4 {
                                                    Err(f) => (Err(f), b4),
                                                    Ok(_) => {
                                                        let fn_env = EnvModel {
                                                            inputs: Seq::empty(),
                                                            lets: Seq::empty(),
                                                            facts: Seq::empty(),
                                                            locals: bind_params(def.params@, vals, n),
                                                            functions: env.functions,
                                                            schemas: def.schemas.pairs(),
                                                        };
                                                        if !(fuel(b4) < f0) {
                                                            (Err(FaultModel::NoMatchingArm), b4)
                                                        } else {
                                                            let (rr, b5) = eval_spec(def.body, fn_env, b4, Some(fname@));
                                                            let b6 = leave_call(b5);
                                                            match rr {
                                                                Err(f) => (Err(f), b6),
                                                                Ok(rv) => match def.ret_contract {
                                                                    None => (Ok(rv), b6),
                                                                    Some(ty) => match validate_spec(rv, ty, *def.schemas, "<root>"@) {
                                                                        Err(detail) => (Err(violation(fname@, None, ty, rv, detail)), b6),
                                                                        Ok(_) => (Ok(rv), b6),
                                                                    },
                                                                },
                                                            }
                                                        }
                                                    },
                                                }
                                            },
                                        }
                                    },
                                },
                            }
                        },
                    }
                }
            },
        },
        _ => (Err(FaultModel::NoMatchingArm), b),
    }
}

/// Whether an evaluation starts with a budget: only when helper functions or
/// schemas are in scope.
pub open spec fn starting_budget(env: EnvModel) -> Option<EvalBudget> {
    if env.functions.len() == 0 && env.schemas.len() == 0 {
        None
    } else {
        Some(EvalBudget::initial())
    }
}

/// The value of `e` under `env`, or the fault that stops its evaluation.
#[verifier::opaque]
pub open spec fn eval_result(e: L3ExprV2, env: EnvModel) -> Result<ValueModel, FaultModel> {
    eval_spec(e, env, starting_budget(env), None).0
}

/// `e` is an integer, string or boolean literal.
pub open spec fn is_literal(e: L3ExprV2) -> bool {
    e is Int || e is Str || e is Bool
}

/// Every argument of `e` is a literal.
pub open spec fn literal_args(e: L3ExprV2) -> bool {
    forall|i: int| 0 <= i < arg_exprs(e).len() ==> is_literal(#[trigger] arg_exprs(e)[i])
}

/// Two environments with the same helper table; what the caller has in
/// scope (inputs, lets, facts, locals, schemas) may differ.
pub open spec fn same_helpers(a: EnvModel, b: EnvModel) -> bool {
    a.functions == b.functions
}

proof fn lemma_literal_list(
    parent: L3ExprV2,
    env1: EnvModel,
    env2: EnvModel,
    b: Option<EvalBudget>,
    func: Option<Seq<char>>,
    f0: nat,
    i: nat,
    acc: Seq<ValueModel>,
    charge_each: bool,
)
    requires
        literal_args(parent),
    ensures
        eval_list_spec(parent, env1, b, func, f0, i, acc, charge_each) == eval_list_spec(
            parent,
            env2,
            b,
            func,
            f0,
            i,
            acc,
            charge_each,
        ),
    decreases arg_exprs(parent).len() - i,
{
    let args = arg_exprs(parent);
    if i < args.len() && may_descend(b, f0) {
        assert(is_literal(args[i as int]));
        assert(eval_spec(args[i as int], env1, b, func) == eval_spec(args[i as int], env2, b, func));
        let (r, b1) = eval_spec(args[i as int], env1, b, func);
        if let Ok(v) = r {
            let (rc, b2) = charge(b1, v, 2);
            lemma_literal_list(parent, env1, env2, b1, func, f0, i + 1, acc.push(v), charge_each);
            lemma_literal_list(parent, env1, env2, b2, func, f0, i + 1, acc.push(v), charge_each);
        }
    }
}

/// A helper's body runs with only its parameters and the helper table in
/// scope: a call of a registered helper whose arguments are literals gives
/// the same result whatever inputs, lets, facts, locals and schemas the
/// caller has.
pub proof fn lemma_helper_ignores_caller_scope(call: L3ExprV2, env1: EnvModel, env2: EnvModel)
    requires
        call is Call,
        literal_args(call),
        same_helpers(env1, env2),
        assoc_get(env1.functions, call->Call_func@) is Some,
    ensures
        eval_result(call, env1) == eval_result(call, env2),
{
    reveal(eval_result);
    assert(env1.functions.len() > 0);
    let b = starting_budget(env1);
    assert(starting_budget(env2) == b);
    match b {
        None => {
            lemma_literal_list(call, env1, env2, None, None, 0, 0, Seq::empty(), false);
        },
        Some(x) => {
            let (t, x1) = tick_spec(x);
            if t is Ok && !(x1.recursion_depth + 1 > x1.max_recursion_depth) {
                let x2 = EvalBudget { recursion_depth: (x1.recursion_depth + 1) as usize, ..x1 };
                let f0 = fuel(b);
                let (r1, b1) = reserve(
                    Some(x2),
                    call->Call_args@.len() as usize,
                    sat(call->Call_args@.len() * value_slot()) as usize,
                );
                lemma_literal_list(call, env1, env2, b1, None, f0, 0, Seq::empty(), false);
                assert(call_spec(call, env1, Some(x2), None, f0) == call_spec(call, env2, Some(x2), None, f0));
            }
        },
    }
}

/// The budget the first read of a budgeted evaluation runs under: the
/// starting budget after one step at nesting depth one.
pub open spec fn first_read_budget() -> EvalBudget {
    EvalBudget { steps: 1, recursion_depth: 1, ..EvalBudget::initial() }
}

/// A value fits one read under the starting limits on value nodes, bytes
/// and nesting.
pub open spec fn fits_one_read(v: ValueModel) -> bool {
    value_charge_spec(first_read_budget(), v, 1).0 is Ok
}

/// What a read of a stored value `v` yields: `v` itself when no budget is
/// in force or `v` fits one read under the starting limits; otherwise the
/// read runs out of the budget.
pub open spec fn reads_back(r: Result<ValueModel, FaultModel>, env: EnvModel, v: ValueModel) -> bool {
    &&& (starting_budget(env) is None || fits_one_read(v)) ==> r == Ok::<ValueModel, FaultModel>(v)
    &&& !(starting_budget(env) is None || fits_one_read(v)) ==> (r matches Err(f) && f is ResourceExhausted)
}

/// A stored `let`, input or fact reads back as what was stored.
pub proof fn lemma_stored_read(e: L3ExprV2, env: EnvModel, v: ValueModel)
    requires
        e matches L3ExprV2::LetRef(n) ==> binding(env, n@) == Some(v),
        e matches L3ExprV2::RuleFact(n) ==> assoc_get(env.facts, n@) == Some(v),
        e is LetRef || e is RuleFact,
    ensures
        reads_back(eval_result(e, env), env, v),
{
    reveal(eval_result);
    let b = starting_budget(env);
    match b {
        None => {
            assert(eval_spec(e, env, None, None) == body_spec(e, env, None, None, 0));
        },
        Some(x) => {
            let (t, x1) = tick_spec(x);
            assert(t is Ok);
            let x2 = EvalBudget { recursion_depth: (x1.recursion_depth + 1) as usize, ..x1 };
            assert(x2 == first_read_budget());
            lemma_walk_exhausts(x2, seq![(v, 1int)], 0, 0, 1);
            assert(charge(Some(x2), v, 1).0 matches Err(f) ==> f is ResourceExhausted);
        },
    }
}

/// Reading a `let` right after binding it gives back the bound value, when
/// no match-bound local of that name shadows it.
pub proof fn lemma_let_read_back(env: EnvModel, name: String, v: ValueModel)
    requires
        assoc_get(env.locals, name@) is None,
    ensures
        reads_back(
            eval_result(L3ExprV2::LetRef(name), EnvModel { lets: insert_pairs(env.lets, name@, v), ..env }),
            env,
            v,
        ),
{
    lemma_insert_get_own(env.lets, name@, v);
    let after = EnvModel { lets: insert_pairs(env.lets, name@, v), ..env };
    assert(starting_budget(after) == starting_budget(env));
    lemma_stored_read(L3ExprV2::LetRef(name), after, v);
}

/// Reading an input right after binding it gives back the bound value, when
/// neither a local nor a `let` of that name shadows it.
pub proof fn lemma_input_read_back(env: EnvModel, name: String, v: ValueModel)
    requires
        assoc_get(env.locals, name@) is None,
        assoc_get(env.lets, name@) is None,
    ensures
        reads_back(
            eval_result(L3ExprV2::LetRef(name), EnvModel { inputs: insert_pairs(env.inputs, name@, v), ..env }),
            env,
            v,
        ),
{
    lemma_insert_get_own(env.inputs, name@, v);
    let after = EnvModel { inputs: insert_pairs(env.inputs, name@, v), ..env };
    assert(starting_budget(after) == starting_budget(env));
    lemma_stored_read(L3ExprV2::LetRef(name), after, v);
}

/// Reading a rule's fact right after recording it gives back the recorded
/// value.
pub proof fn lemma_fact_read_back(env: EnvModel, rule: String, v: ValueModel)
    ensures
        reads_back(
            eval_result(L3ExprV2::RuleFact(rule), EnvModel { facts: insert_pairs(env.facts, rule@, v), ..env }),
            env,
            v,
        ),
{
    lemma_insert_get_own(env.facts, rule@, v);
    let after = EnvModel { facts: insert_pairs(env.facts, rule@, v), ..env };
    assert(starting_budget(after) == starting_budget(env));
    lemma_stored_read(L3ExprV2::RuleFact(rule), after, v);
}

/// Result of an evaluation, with value and fault as models.
pub open spec fn outcome(r: Result<L3ValueV2, EvalFault>) -> Result<ValueModel, FaultModel> {
    match r {
        Ok(v) => Ok(v@),
        Err(f) => Err(f@),
    }
}

} // verus!
