//! Normalizing a surface expression to a closed static value, or the
//! reason it falls outside the closed-value fragment.
use vstd::prelude::*;

use crate::finite_decision::plan::names_of;
use crate::keymap::{assoc_get, lemma_get_mapped, map_entries, same_text, KeyMap};
use crate::l3::{infer_value_type, L3ConfigBody, L3ConfigDecl, L3LowerError, L3TypeRef, L3ValueV1, StaticModel};
use crate::l3_v2::lower::{int_literal, parse_int_literal, surface_fields, SurfaceBinOp, SurfaceExpr};
use crate::text::{debug_quoted, debug_str, join3, owned};

verus! {

/// What normalization resolves names against: the declared configs, each
/// constructor with its sum and arity, the constructor names two sums
/// share, the closed `let` values so far, every `let` name, and the `let`
/// being normalized, if any.
pub struct NormEnv {
    pub configs: KeyMap<L3ConfigDecl>,
    pub ctors: KeyMap<(String, usize)>,
    pub ambiguous_ctors: KeyMap<()>,
    pub closed_lets: KeyMap<L3ValueV1>,
    pub all_let_names: KeyMap<()>,
    pub self_name: Option<String>,
}

/// A config body as the normalizer reads it: a record's declared fields
/// with their types, or a sum's variants with their payload types.
pub enum BodyModel {
    Record(Seq<(String, L3TypeRef)>),
    Sum(Seq<(String, Seq<L3TypeRef>)>),
}

/// The model of a config body.
pub open spec fn body_model(b: L3ConfigBody) -> BodyModel {
    match b {
        L3ConfigBody::Record(fs) => BodyModel::Record(fs@),
        L3ConfigBody::Sum(vs) => BodyModel::Sum(vs@.map_values(|v: (String, Vec<L3TypeRef>)| (v.0, v.1@))),
    }
}

/// What normalization resolves names against, as a model: each config's
/// body, each constructor with its sum and arity, the ambiguous constructor
/// names, the closed `let` values, every `let` name, and the `let` being
/// normalized, if any.
pub struct NormScope {
    pub configs: Seq<(Seq<char>, BodyModel)>,
    pub ctors: Seq<(Seq<char>, (String, usize))>,
    pub ambiguous: Set<Seq<char>>,
    pub closed_lets: Seq<(Seq<char>, StaticModel)>,
    pub all_lets: Set<Seq<char>>,
    pub self_name: Option<String>,
}

/// The model of a normalization environment.
pub open spec fn norm_scope(env: NormEnv) -> NormScope {
    NormScope {
        configs: map_entries(env.configs.pairs(), |d: L3ConfigDecl| body_model(d.body)),
        ctors: env.ctors.pairs(),
        ambiguous: names_of(env.ambiguous_ctors),
        closed_lets: map_entries(env.closed_lets.pairs(), |v: L3ValueV1| v@),
        all_lets: names_of(env.all_let_names),
        self_name: env.self_name,
    }
}

/// Why an expression is not a closed static value, as a model.
pub enum NormFault {
    FloatLiteral(Seq<char>),
    IntegerOverflow(Seq<char>),
    Ambiguous(Seq<char>),
    PayloadBearing(Seq<char>),
    RecursiveLet(Seq<char>),
    ForwardLet(Seq<char>),
    Unclosed(Seq<char>),
    UnknownType(Seq<char>),
    NotARecord(Seq<char>),
    DuplicateField { config: Seq<char>, field: Seq<char> },
    MissingField { config: Seq<char>, field: Seq<char> },
    UnknownField { config: Seq<char>, field: Seq<char> },
    TypeMismatch { name: Seq<char>, expected: Seq<char>, found: Seq<char> },
    FieldAccess(Seq<char>),
    Call(Seq<char>),
    Arithmetic,
    WitnessComposition,
    Comparison,
    BooleanLiteral,
    Match,
    Prove,
    Why,
    Audit,
}

/// `e` is the error `f` describes.
pub open spec fn norm_fault_is(e: L3LowerError, f: NormFault) -> bool {
    match f {
        NormFault::FloatLiteral(n) => e matches L3LowerError::FloatLiteralNotAllowed(x) && x@ == n,
        NormFault::IntegerOverflow(n) => e matches L3LowerError::IntegerOverflow(x) && x@ == n,
        NormFault::Ambiguous(n) => e matches L3LowerError::AmbiguousConstructorReference(x) && x@ == n,
        NormFault::PayloadBearing(n) => e matches L3LowerError::PayloadBearingConstructor(x) && x@ == n,
        NormFault::RecursiveLet(n) => e matches L3LowerError::RecursiveLetReference(x) && x@ == n,
        NormFault::ForwardLet(n) => e matches L3LowerError::ForwardLetReference(x) && x@ == n,
        NormFault::Unclosed(n) => e matches L3LowerError::UnclosedReference(x) && x@ == n,
        NormFault::UnknownType(n) => e matches L3LowerError::UnknownTypeName(x) && x@ == n,
        NormFault::NotARecord(n) => e matches L3LowerError::NotARecordConfig(x) && x@ == n,
        NormFault::DuplicateField { config, field } => e matches L3LowerError::DuplicateRecordLiteralField {
            config: c,
            field: x,
        } && c@ == config && x@ == field,
        NormFault::MissingField { config, field } => e matches L3LowerError::MissingRecordField { config: c, field: x }
            && c@ == config && x@ == field,
        NormFault::UnknownField { config, field } => e matches L3LowerError::UnknownRecordField { config: c, field: x }
            && c@ == config && x@ == field,
        NormFault::TypeMismatch { name, expected, found } => e matches L3LowerError::DeclaredTypeMismatch {
            name: n,
            expected: x,
            found: y,
        } && n@ == name && x@ == expected && y@ == found,
        NormFault::FieldAccess(n) => e matches L3LowerError::FieldAccessNotAllowed(x) && x@ == n,
        NormFault::Call(n) => e matches L3LowerError::CallNotAllowed(x) && x@ == n,
        NormFault::Arithmetic => e is ArithmeticNotAllowed,
        NormFault::WitnessComposition => e is WitnessCompositionNotAllowed,
        NormFault::Comparison => e is ComparisonNotAllowed,
        NormFault::BooleanLiteral => e is BooleanLiteralNotAllowed,
        NormFault::Match => e is MatchNotAllowed,
        NormFault::Prove => e is ProveNotAllowed,
        NormFault::Why => e is WhyNotAllowed,
        NormFault::Audit => e is AuditNotAllowed,
    }
}

/// A name: a constructor (refused when two sums share it, or when it takes
/// a payload), then a closed `let`; otherwise the reason it is not closed.
pub open spec fn var_spec(name: Seq<char>, env: NormScope) -> Result<StaticModel, NormFault> {
    if env.ambiguous.contains(name) {
        Err(NormFault::Ambiguous(name))
    } else if assoc_get(env.ctors, name) is Some {
        let (sum, arity) = assoc_get(env.ctors, name)->0;
        if arity == 0 {
            Ok(StaticModel::NullaryVariant { nominal_sum: sum@, variant: name })
        } else {
            Err(NormFault::PayloadBearing(name))
        }
    } else if assoc_get(env.closed_lets, name) is Some {
        Ok(assoc_get(env.closed_lets, name)->0)
    } else if env.self_name matches Some(s) && s@ == name {
        Err(NormFault::RecursiveLet(name))
    } else if env.all_lets.contains(name) {
        Err(NormFault::ForwardLet(name))
    } else {
        Err(NormFault::Unclosed(name))
    }
}

/// Index of the first literal field, from the `i`-th on, whose name an
/// earlier field already has.
pub open spec fn first_duplicate(fs: Seq<(String, SurfaceExpr)>, i: nat) -> Option<int>
    decreases fs.len() - i,
{
    if i >= fs.len() {
        None
    } else if exists|j: int| 0 <= j < i && (#[trigger] fs[j]).0@ == fs[i as int].0@ {
        Some(i as int)
    } else {
        first_duplicate(fs, i + 1)
    }
}

/// Some literal field is named `n`.
pub open spec fn literal_has(fs: Seq<(String, SurfaceExpr)>, n: Seq<char>) -> bool {
    exists|j: int| 0 <= j < fs.len() && (#[trigger] fs[j]).0@ == n
}

/// Some declared field is named `n`.
pub open spec fn declared_has(tys: Seq<(String, L3TypeRef)>, n: Seq<char>) -> bool {
    exists|j: int| 0 <= j < tys.len() && (#[trigger] tys[j]).0@ == n
}

/// Index of the first declared field, from the `i`-th on, that no literal
/// field names.
pub open spec fn first_missing(tys: Seq<(String, L3TypeRef)>, fs: Seq<(String, SurfaceExpr)>, i: nat) -> Option<int>
    decreases tys.len() - i,
{
    if i >= tys.len() {
        None
    } else if !literal_has(fs, tys[i as int].0@) {
        Some(i as int)
    } else {
        first_missing(tys, fs, i + 1)
    }
}

/// Index of the first literal field, from the `i`-th on, that the config
/// does not declare.
pub open spec fn first_unknown(fs: Seq<(String, SurfaceExpr)>, tys: Seq<(String, L3TypeRef)>, i: nat) -> Option<int>
    decreases fs.len() - i,
{
    if i >= fs.len() {
        None
    } else if !declared_has(tys, fs[i as int].0@) {
        Some(i as int)
    } else {
        first_unknown(fs, tys, i + 1)
    }
}

/// Index of the first literal field, from the `i`-th on, named `n`.
pub open spec fn field_index(fs: Seq<(String, SurfaceExpr)>, n: Seq<char>, i: nat) -> Option<int>
    decreases fs.len() - i,
{
    if i >= fs.len() {
        None
    } else if fs[i as int].0@ == n {
        Some(i as int)
    } else {
        field_index(fs, n, i + 1)
    }
}

/// A value has type `t`: the same primitive, or a record or variant of the
/// config `t` names.
pub open spec fn has_type(v: StaticModel, t: L3TypeRef) -> bool {
    match t {
        L3TypeRef::Int => v is Int,
        L3TypeRef::Str => v is Str,
        L3TypeRef::Config(c) => match v {
            StaticModel::Record { nominal_config, .. } => nominal_config == c@,
            StaticModel::NullaryVariant { nominal_sum, .. } => nominal_sum == c@,
            _ => false,
        },
    }
}

/// The `Debug` rendering of a type.
pub open spec fn type_ref_debug(t: L3TypeRef) -> Seq<char> {
    match t {
        L3TypeRef::Int => "Int"@,
        L3TypeRef::Str => "Str"@,
        L3TypeRef::Config(c) => "Config("@ + debug_quoted(c@) + ")"@,
    }
}

/// The `Debug` rendering of a value's type.
pub open spec fn model_type_debug(v: StaticModel) -> Seq<char> {
    match v {
        StaticModel::Int(_) => "Int"@,
        StaticModel::Str(_) => "Str"@,
        StaticModel::Record { nominal_config, .. } => "Config("@ + debug_quoted(nominal_config) + ")"@,
        StaticModel::NullaryVariant { nominal_sum, .. } => "Config("@ + debug_quoted(nominal_sum) + ")"@,
    }
}

/// The closed value of an expression, or the first reason it is not one.
pub open spec fn normalize_spec(e: SurfaceExpr, env: NormScope) -> Result<StaticModel, NormFault>
    decreases e, 1nat, 0nat,
{
    match e {
        SurfaceExpr::Num(s) => if s@.contains('.') {
            Err(NormFault::FloatLiteral(s@))
        } else {
            match int_literal(s@) {
                Some(n) => Ok(StaticModel::Int(n)),
                None => Err(NormFault::IntegerOverflow(s@)),
            }
        },
        SurfaceExpr::Str(s) => Ok(StaticModel::Str(s@)),
        SurfaceExpr::Var(name) => var_spec(name@, env),
        SurfaceExpr::Record { config, fields } => match assoc_get(env.configs, config@) {
            None => Err(NormFault::UnknownType(config@)),
            Some(body) => match body {
                BodyModel::Sum(_) => Err(NormFault::NotARecord(config@)),
                BodyModel::Record(tys) => match first_duplicate(fields@, 0) {
                    Some(i) => Err(NormFault::DuplicateField { config: config@, field: fields@[i].0@ }),
                    None => match first_missing(tys, fields@, 0) {
                        Some(k) => Err(NormFault::MissingField { config: config@, field: tys[k].0@ }),
                        None => match first_unknown(fields@, tys, 0) {
                            Some(i) => Err(NormFault::UnknownField { config: config@, field: fields@[i].0@ }),
                            None => match norm_fields_spec(e, config@, tys, env, tys.len()) {
                                Ok(xs) => Ok(StaticModel::Record { nominal_config: config@, fields: xs }),
                                Err(f) => Err(f),
                            },
                        },
                    },
                },
            },
        },
        SurfaceExpr::Field(_, name) => Err(NormFault::FieldAccess(name@)),
        SurfaceExpr::Call { func, .. } => if env.ambiguous.contains(func@) {
            Err(NormFault::Ambiguous(func@))
        } else if assoc_get(env.ctors, func@) matches Some(c) && c.1 > 0 {
            Err(NormFault::PayloadBearing(func@))
        } else {
            Err(NormFault::Call(func@))
        },
        SurfaceExpr::Bin { op, .. } => match op {
            SurfaceBinOp::Add | SurfaceBinOp::Sub | SurfaceBinOp::Mul | SurfaceBinOp::Div => Err(
                NormFault::Arithmetic,
            ),
            SurfaceBinOp::Then | SurfaceBinOp::And => Err(NormFault::WitnessComposition),
            _ => Err(NormFault::Comparison),
        },
        SurfaceExpr::Bool(_) => Err(NormFault::BooleanLiteral),
        SurfaceExpr::Match { .. } => Err(NormFault::Match),
        SurfaceExpr::Prove(_) => Err(NormFault::Prove),
        SurfaceExpr::Why(_) => Err(NormFault::Why),
        SurfaceExpr::Audit(_) => Err(NormFault::Audit),
    }
}

/// The first `n` declared fields of record literal `parent`, each taken
/// from the literal field of its name, normalized and checked against its
/// declared type, in declaration order.
pub open spec fn norm_fields_spec(
    parent: SurfaceExpr,
    config: Seq<char>,
    tys: Seq<(String, L3TypeRef)>,
    env: NormScope,
    n: nat,
) -> Result<Seq<(Seq<char>, StaticModel)>, NormFault>
    decreases parent, 0nat, n,
{
    if n == 0 || n > tys.len() {
        Ok(Seq::empty())
    } else {
        match norm_fields_spec(parent, config, tys, env, (n - 1) as nat) {
            Err(f) => Err(f),
            Ok(xs) => {
                let (dn, dt) = tys[n - 1];
                let fs = surface_fields(parent);
                match field_index(fs, dn@, 0) {
                    Some(k) if 0 <= k < fs.len() => match normalize_spec(fs[k].1, env) {
                        Err(f) => Err(f),
                        Ok(v) => if has_type(v, dt) {
                            Ok(xs.push((dn@, v)))
                        } else {
                            Err(
                                NormFault::TypeMismatch {
                                    name: config + "."@ + dn@,
                                    expected: type_ref_debug(dt),
                                    found: model_type_debug(v),
                                },
                            )
                        },
                    },
                    _ => Err(NormFault::MissingField { config, field: dn@ }),
                }
            },
        }
    }
}

/// Whether `s` holds a `.`.
fn has_dot(s: &str) -> (b: bool)
    ensures
        b == s@.contains('.'),
{
    let n = s.unicode_len();
    let mut i: usize = 0;
    while i < n
        invariant
            i <= n,
            n == s@.len(),
            forall|j: int| 0 <= j < i ==> s@[j] != '.',
        decreases n - i,
    {
        if s.get_char(i) == '.' {
            return true;
        }
        i = i + 1;
    }
    false
}

/// Whether a set-like map holds `k`.
fn holds(m: &KeyMap<()>, k: &str) -> (b: bool)
    ensures
        b == names_of(*m).contains(k@),
{
    m.get(k).is_some()
}

/// Resolve a name to a closed value.
fn resolve_static_name(name: &String, env: &NormEnv) -> (r: Result<L3ValueV1, L3LowerError>)
    ensures
        match var_spec(name@, norm_scope(*env)) {
            Ok(m) => r matches Ok(v) && v@ == m,
            Err(f) => r matches Err(x) && norm_fault_is(x, f),
        },
{
    proof {
        lemma_get_mapped(env.closed_lets.pairs(), name@, |v: L3ValueV1| v@);
    }
    if holds(&env.ambiguous_ctors, name.as_str()) {
        return Err(L3LowerError::AmbiguousConstructorReference(name.clone()));
    }
    match env.ctors.get(name.as_str()) {
        Some(c) => {
            if c.1 == 0 {
                return Ok(L3ValueV1::NullaryVariant { nominal_sum: c.0.clone(), variant: name.clone() });
            } else {
                return Err(L3LowerError::PayloadBearingConstructor(name.clone()));
            }
        },
        None => {},
    }
    match env.closed_lets.get(name.as_str()) {
        Some(v) => {
            return Ok(v.duplicate());
        },
        None => {},
    }
    match &env.self_name {
        Some(s) => {
            if same_text(s.as_str(), name.as_str()) {
                return Err(L3LowerError::RecursiveLetReference(name.clone()));
            }
        },
        None => {},
    }
    if holds(&env.all_let_names, name.as_str()) {
        return Err(L3LowerError::ForwardLetReference(name.clone()));
    }
    Err(L3LowerError::UnclosedReference(name.clone()))
}

/// The first literal field whose name an earlier field already has.
#[verifier::loop_isolation(false)]
fn find_duplicate(fs: &Vec<(String, SurfaceExpr)>) -> (r: Option<usize>)
    ensures
        match r {
            Some(x) => first_duplicate(fs@, 0) == Some(x as int) && x < fs@.len(),
            None => first_duplicate(fs@, 0) is None,
        },
{
    let mut i: usize = 0;
    while i < fs.len()
        invariant
            i <= fs@.len(),
            first_duplicate(fs@, i as nat) == first_duplicate(fs@, 0),
        decreases fs@.len() - i,
    {
        let mut j: usize = 0;
        while j < i
            invariant
                j <= i < fs@.len(),
                forall|k: int| 0 <= k < j ==> (#[trigger] fs@[k]).0@ != fs@[i as int].0@,
            decreases i - j,
        {
            if same_text(fs[j].0.as_str(), fs[i].0.as_str()) {
                proof {
                    assert(fs@[j as int].0@ == fs@[i as int].0@);
                }
                return Some(i);
            }
            j = j + 1;
        }
        i = i + 1;
    }
    None
}

/// Whether some literal field is named `n`.
fn literal_names(fs: &Vec<(String, SurfaceExpr)>, n: &str) -> (b: bool)
    ensures
        b == literal_has(fs@, n@),
{
    let mut j: usize = 0;
    while j < fs.len()
        invariant
            j <= fs@.len(),
            forall|k: int| 0 <= k < j ==> (#[trigger] fs@[k]).0@ != n@,
        decreases fs@.len() - j,
    {
        if same_text(fs[j].0.as_str(), n) {
            return true;
        }
        j = j + 1;
    }
    false
}

/// Whether some declared field is named `n`.
fn declared_names(tys: &Vec<(String, L3TypeRef)>, n: &str) -> (b: bool)
    ensures
        b == declared_has(tys@, n@),
{
    let mut j: usize = 0;
    while j < tys.len()
        invariant
            j <= tys@.len(),
            forall|k: int| 0 <= k < j ==> (#[trigger] tys@[k]).0@ != n@,
        decreases tys@.len() - j,
    {
        if same_text(tys[j].0.as_str(), n) {
            return true;
        }
        j = j + 1;
    }
    false
}

/// The first declared field no literal field names.
fn find_missing(tys: &Vec<(String, L3TypeRef)>, fs: &Vec<(String, SurfaceExpr)>) -> (r: Option<usize>)
    ensures
        match r {
            Some(x) => first_missing(tys@, fs@, 0) == Some(x as int) && x < tys@.len(),
            None => first_missing(tys@, fs@, 0) is None,
        },
{
    let mut i: usize = 0;
    while i < tys.len()
        invariant
            i <= tys@.len(),
            first_missing(tys@, fs@, i as nat) == first_missing(tys@, fs@, 0),
        decreases tys@.len() - i,
    {
        if !literal_names(fs, tys[i].0.as_str()) {
            return Some(i);
        }
        i = i + 1;
    }
    None
}

/// The first literal field the config does not declare.
fn find_unknown(fs: &Vec<(String, SurfaceExpr)>, tys: &Vec<(String, L3TypeRef)>) -> (r: Option<usize>)
    ensures
        match r {
            Some(x) => first_unknown(fs@, tys@, 0) == Some(x as int) && x < fs@.len(),
            None => first_unknown(fs@, tys@, 0) is None,
        },
{
    let mut i: usize = 0;
    while i < fs.len()
        invariant
            i <= fs@.len(),
            first_unknown(fs@, tys@, i as nat) == first_unknown(fs@, tys@, 0),
        decreases fs@.len() - i,
    {
        if !declared_names(tys, fs[i].0.as_str()) {
            return Some(i);
        }
        i = i + 1;
    }
    None
}

/// The first literal field named `n`.
fn find_field(fs: &Vec<(String, SurfaceExpr)>, n: &str) -> (r: Option<usize>)
    ensures
        match r {
            Some(x) => field_index(fs@, n@, 0) == Some(x as int) && x < fs@.len(),
            None => field_index(fs@, n@, 0) is None,
        },
{
    let mut i: usize = 0;
    while i < fs.len()
        invariant
            i <= fs@.len(),
            field_index(fs@, n@, i as nat) == field_index(fs@, n@, 0),
        decreases fs@.len() - i,
    {
        if same_text(fs[i].0.as_str(), n) {
            return Some(i);
        }
        i = i + 1;
    }
    None
}

/// Whether a value has type `t`.
pub(crate) fn type_matches(v: &L3ValueV1, t: &L3TypeRef) -> (b: bool)
    ensures
        b == has_type(v@, *t),
{
    match (t, v) {
        (L3TypeRef::Int, L3ValueV1::Int(_)) => true,
        (L3TypeRef::Str, L3ValueV1::Str(_)) => true,
        (L3TypeRef::Config(c), L3ValueV1::Record { nominal_config, .. }) => same_text(nominal_config.as_str(), c.as_str()),
        (L3TypeRef::Config(c), L3ValueV1::NullaryVariant { nominal_sum, .. }) => same_text(nominal_sum.as_str(), c.as_str()),
        _ => false,
    }
}

/// The `Debug` rendering of a type.
pub fn type_ref_debug_text(t: &L3TypeRef) -> (s: String)
    ensures
        s@ == type_ref_debug(*t),
{
    match t {
        L3TypeRef::Int => owned("Int"),
        L3TypeRef::Str => owned("Str"),
        L3TypeRef::Config(c) => {
            let q = debug_str(c.as_str());
            join3("Config(", q.as_str(), ")")
        },
    }
}

proof fn lemma_norm_fields_stop(
    parent: SurfaceExpr,
    config: Seq<char>,
    tys: Seq<(String, L3TypeRef)>,
    env: NormScope,
    k: nat,
    n: nat,
)
    requires
        k <= n <= tys.len(),
        norm_fields_spec(parent, config, tys, env, k) is Err,
    ensures
        norm_fields_spec(parent, config, tys, env, n) == norm_fields_spec(parent, config, tys, env, k),
    decreases n - k,
{
    if k < n {
        lemma_norm_fields_stop(parent, config, tys, env, k, (n - 1) as nat);
    }
}

/// Normalize the declared fields of record literal `parent`, in declaration
/// order.
#[verifier::loop_isolation(false)]
fn norm_fields(
    parent: &SurfaceExpr,
    config: &String,
    tys: &Vec<(String, L3TypeRef)>,
    fields: &Vec<(String, SurfaceExpr)>,
    env: &NormEnv,
) -> (r: Result<Vec<(String, L3ValueV1)>, L3LowerError>)
    requires
        parent is Record && parent->Record_fields == *fields,
    ensures
        match norm_fields_spec(*parent, config@, tys@, norm_scope(*env), tys@.len()) {
            Ok(xs) => r matches Ok(v) && v@.len() == xs.len() && forall|k: int|
                0 <= k < xs.len() ==> (#[trigger] v@[k]).0@ == xs[k].0 && v@[k].1@ == xs[k].1,
            Err(f) => r matches Err(x) && norm_fault_is(x, f),
        },
    decreases parent, 0nat,
{
    let mut out: Vec<(String, L3ValueV1)> = Vec::new();
    let mut i: usize = 0;
    while i < tys.len()
        invariant
            i <= tys@.len(),
            norm_fields_spec(*parent, config@, tys@, norm_scope(*env), i as nat) matches Ok(xs) && out@.len() == xs.len()
                && forall|k: int| 0 <= k < xs.len() ==> (#[trigger] out@[k]).0@ == xs[k].0 && out@[k].1@ == xs[k].1,
        decreases tys@.len() - i,
    {
        let dn = &tys[i].0;
        let dt = &tys[i].1;
        match find_field(fields, dn.as_str()) {
            None => {
                proof {
                    lemma_norm_fields_stop(*parent, config@, tys@, norm_scope(*env), (i + 1) as nat, tys@.len());
                }
                return Err(L3LowerError::MissingRecordField { config: config.clone(), field: dn.clone() });
            },
            Some(k) => {
                proof {
                    assert(decreases_to!(*parent => parent->Record_fields));
                    assert(decreases_to!(parent->Record_fields => parent->Record_fields@));
                    assert(decreases_to!(parent->Record_fields@ => parent->Record_fields@[k as int]));
                    assert(decreases_to!(parent->Record_fields@[k as int] => parent->Record_fields@[k as int].1));
                }
                match normalize_static_value(&fields[k].1, env) {
                    Err(err) => {
                        proof {
                            lemma_norm_fields_stop(*parent, config@, tys@, norm_scope(*env), (i + 1) as nat, tys@.len());
                        }
                        return Err(err);
                    },
                    Ok(v) => {
                        if !type_matches(&v, dt) {
                            let name = join3(config.as_str(), ".", dn.as_str());
                            let expected = type_ref_debug_text(dt);
                            let inferred = infer_value_type(&v);
                            let found = type_ref_debug_text(&inferred);
                            proof {
                                lemma_norm_fields_stop(*parent, config@, tys@, norm_scope(*env), (i + 1) as nat, tys@.len());
                            }
                            return Err(L3LowerError::DeclaredTypeMismatch { name, expected, found });
                        }
                        out.push((dn.clone(), v));
                    },
                }
            },
        }
        i = i + 1;
    }
    Ok(out)
}

/// Normalize a surface expression to a closed static value, or refuse it
/// with the specific reason it falls outside the closed-value fragment.
#[verifier::loop_isolation(false)]
pub fn normalize_static_value(expr: &SurfaceExpr, env: &NormEnv) -> (r: Result<L3ValueV1, L3LowerError>)
    ensures
        match normalize_spec(*expr, norm_scope(*env)) {
            Ok(m) => r matches Ok(v) && v@ == m,
            Err(f) => r matches Err(x) && norm_fault_is(x, f),
        },
    decreases expr, 1nat,
{
    match expr {
        SurfaceExpr::Num(s) => {
            if has_dot(s.as_str()) {
                return Err(L3LowerError::FloatLiteralNotAllowed(s.clone()));
            }
            match parse_int_literal(s.as_str()) {
                Some(n) => Ok(L3ValueV1::Int(n)),
                None => Err(L3LowerError::IntegerOverflow(s.clone())),
            }
        },
        SurfaceExpr::Str(s) => Ok(L3ValueV1::Str(s.clone())),
        SurfaceExpr::Var(name) => resolve_static_name(name, env),
        SurfaceExpr::Record { config, fields } => {
            proof {
                lemma_get_mapped(env.configs.pairs(), config@, |d: L3ConfigDecl| body_model(d.body));
            }
            let decl = match env.configs.get(config.as_str()) {
                None => {
                    return Err(L3LowerError::UnknownTypeName(config.clone()));
                },
                Some(d) => d,
            };
            let tys = match &decl.body {
                L3ConfigBody::Record(tys) => tys,
                L3ConfigBody::Sum(_) => {
                    return Err(L3LowerError::NotARecordConfig(config.clone()));
                },
            };
            match find_duplicate(fields) {
                Some(i) => {
                    return Err(
                        L3LowerError::DuplicateRecordLiteralField { config: config.clone(), field: fields[i].0.clone() },
                    );
                },
                None => {},
            }
            match find_missing(tys, fields) {
                Some(k) => {
                    return Err(L3LowerError::MissingRecordField { config: config.clone(), field: tys[k].0.clone() });
                },
                None => {},
            }
            match find_unknown(fields, tys) {
                Some(i) => {
                    return Err(L3LowerError::UnknownRecordField { config: config.clone(), field: fields[i].0.clone() });
                },
                None => {},
            }
            match norm_fields(expr, config, tys, fields, env) {
                Ok(out) => {
                    let r = L3ValueV1::Record { nominal_config: config.clone(), fields: out };
                    proof {
                        crate::l3::lemma_static_fields_prefix(out@, out@.len());
                        let xs = norm_fields_spec(*expr, config@, tys@, norm_scope(*env), tys@.len())->Ok_0;
                        assert(crate::l3::static_fields_prefix(out@, out@.len()) =~= xs);
                    }
                    Ok(r)
                },
                Err(err) => Err(err),
            }
        },
        SurfaceExpr::Field(_, name) => Err(L3LowerError::FieldAccessNotAllowed(name.clone())),
        SurfaceExpr::Call { func, .. } => {
            if holds(&env.ambiguous_ctors, func.as_str()) {
                return Err(L3LowerError::AmbiguousConstructorReference(func.clone()));
            }
            match env.ctors.get(func.as_str()) {
                Some(c) => {
                    if c.1 > 0 {
                        return Err(L3LowerError::PayloadBearingConstructor(func.clone()));
                    }
                },
                None => {},
            }
            Err(L3LowerError::CallNotAllowed(func.clone()))
        },
        SurfaceExpr::Bin { op, .. } => match op {
            SurfaceBinOp::Add | SurfaceBinOp::Sub | SurfaceBinOp::Mul | SurfaceBinOp::Div => Err(
                L3LowerError::ArithmeticNotAllowed,
            ),
            SurfaceBinOp::Then | SurfaceBinOp::And => Err(L3LowerError::WitnessCompositionNotAllowed),
            _ => Err(L3LowerError::ComparisonNotAllowed),
        },
        SurfaceExpr::Bool(_) => Err(L3LowerError::BooleanLiteralNotAllowed),
        SurfaceExpr::Match { .. } => Err(L3LowerError::MatchNotAllowed),
        SurfaceExpr::Prove(_) => Err(L3LowerError::ProveNotAllowed),
        SurfaceExpr::Why(_) => Err(L3LowerError::WhyNotAllowed),
        SurfaceExpr::Audit(_) => Err(L3LowerError::AuditNotAllowed),
    }
}

} // verus!
