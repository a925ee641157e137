//! L3 v2 — the derivation-capable executable profile.
//!
//! A v2 rule body is an expression. Rule bodies may read the committed facts
//! of earlier rules, so a run derives facts in dependency order. This module
//! holds the lowering from surface modules, the plan shape, the value and
//! fault vocabulary, the evaluator, the exhaustiveness check and the runner.
use std::sync::Arc;
use vstd::prelude::*;
use crate::text::{debug_list, debug_opt, debug_option, debug_quoted, debug_str, debug_string_list, decimal, join2, join3, join4, join5, owned, usize_text};

use crate::keymap::KeyMap;

pub mod schema;
pub mod expr_view;
pub mod lower;
pub mod lower_plan;
pub mod reads;
pub mod record_order;
pub mod budget;
pub mod semantics;
pub mod eval;
pub mod exhaustive;
pub mod runner;
pub mod building;
pub mod meaning;

pub use schema::validate_l3_value;


verus! {

/// A `config` with its shape: variant names and arities, or field names.
#[derive(Clone, Debug, PartialEq, Eq)]
pub struct L3ConfigDeclV2 {
    pub name: String,
    pub body: L3ConfigBodyV2,
}

/// A `config` body's shape.
#[derive(Clone, Debug, PartialEq, Eq)]
pub enum L3ConfigBodyV2 {
    /// `(variant name, parameter count)`, in declaration order.
    Sum(Vec<(String, usize)>),
    /// Field names, in declaration order.
    Record(Vec<String>),
}

/// The v2 execution-profile marker.
pub const L3_PROFILE_MARKER_V2: &'static str = "brix.l3.rule-agenda-derived@2";

/// The v2 plan format version.
pub const L3_PLAN_FORMAT_V2: u64 = 2;

/// A v2 rule body expression.
#[derive(Debug, PartialEq, Eq)]
pub enum L3ExprV2 {
    Int(i64),
    Str(String),
    Bool(bool),
    /// A prior closed `let` binding (or a local, or an input), by name.
    LetRef(String),
    /// Read the payload of an earlier rule's committed fact.
    RuleFact(String),
    /// A nullary variant of a declared sum.
    NullaryVariant { nominal_sum: String, variant: String },
    /// A payload-bearing constructor application.
    Ctor { nominal_sum: String, variant: String, args: Vec<L3ExprV2> },
    /// A record literal, its fields in the order its config declares them
    /// regardless of source order.
    Record { nominal_config: String, fields: Vec<(String, L3ExprV2)> },
    /// Field projection on a record.
    Field(Box<L3ExprV2>, String),
    /// Checked integer arithmetic.
    Arith(ArithOpV2, Box<L3ExprV2>, Box<L3ExprV2>),
    /// Comparison, yielding a boolean.
    Cmp(CmpOpV2, Box<L3ExprV2>, Box<L3ExprV2>),
    /// Case analysis over constructor patterns.
    Match { scrutinee: Box<L3ExprV2>, arms: Vec<(L3PatternV2, L3ExprV2)> },
    /// A pure function invocation.
    Call { func: String, args: Vec<L3ExprV2> },
}

/// Type category of an [`L3ValueV2`].
#[derive(Clone, Debug, PartialEq, Eq, PartialOrd, Ord, Hash)]
pub enum L3ValueType {
    Int,
    Str,
    Bool,
    Sum(String),
    Record(String),
}

/// Rendering of a value type: `Int`, `Str`, `Bool`, `Sum(name)`, `Record(name)`.
pub open spec fn value_type_text(t: L3ValueType) -> Seq<char> {
    match t {
        L3ValueType::Int => "Int"@,
        L3ValueType::Str => "Str"@,
        L3ValueType::Bool => "Bool"@,
        L3ValueType::Sum(s) => "Sum("@ + s@ + ")"@,
        L3ValueType::Record(r) => "Record("@ + r@ + ")"@,
    }
}

impl L3ValueType {
    /// The rendering used in diagnostics.
    pub fn to_display_string(&self) -> (s: String)
        ensures
            s@ == value_type_text(*self),
    {
        match self {
            L3ValueType::Int => crate::text::owned("Int"),
            L3ValueType::Str => crate::text::owned("Str"),
            L3ValueType::Bool => crate::text::owned("Bool"),
            L3ValueType::Sum(s) => crate::text::join3("Sum(", s.as_str(), ")"),
            L3ValueType::Record(r) => crate::text::join3("Record(", r.as_str(), ")"),
        }
    }
}

/// A schema type for structured inputs and helper contracts.
#[derive(Clone, Debug, PartialEq, Eq, PartialOrd, Ord, Hash)]
pub enum L3SchemaType {
    Int,
    Bool,
    Str,
    Named(String),
}

/// A closed config definition in a schema table.
#[derive(Clone, Debug, PartialEq, Eq)]
pub enum L3SchemaBody {
    Sum(Vec<(String, Vec<L3SchemaType>)>),
    Record(KeyMap<L3SchemaType>),
}

#[derive(Clone, Debug, PartialEq, Eq)]
pub struct L3Schema {
    pub name: String,
    pub body: L3SchemaBody,
}

/// Display name of a schema type.
pub open spec fn schema_type_name(t: L3SchemaType) -> Seq<char> {
    match t {
        L3SchemaType::Int => "Int"@,
        L3SchemaType::Bool => "Bool"@,
        L3SchemaType::Str => "Str"@,
        L3SchemaType::Named(n) => n@,
    }
}

impl L3SchemaType {
    pub fn display_name(&self) -> (s: String)
        ensures
            s@ == schema_type_name(*self),
    {
        match self {
            L3SchemaType::Int => crate::text::owned("Int"),
            L3SchemaType::Bool => crate::text::owned("Bool"),
            L3SchemaType::Str => crate::text::owned("Str"),
            L3SchemaType::Named(name) => name.clone(),
        }
    }

    /// Whether this is a builtin leaf (`Int`, `Bool`, `Str`).
    pub open spec fn is_builtin(&self) -> bool {
        !(*self is Named)
    }
}

/// Evaluation bounds.
pub const MAX_CALL_DEPTH: usize = 64;
pub const MAX_EVAL_RECURSION_DEPTH: usize = 64;
pub const MAX_CALL_STEPS: usize = 10_000;
pub const MAX_VALUE_DEPTH: usize = 128;
pub const MAX_EVAL_VALUE_NODES: usize = 10_000;
pub const MAX_EVAL_VALUE_BYTES: usize = 1_000_000;

/// A normalized pure function definition.
#[derive(Clone, Debug, PartialEq, Eq)]
pub struct L3FunctionDef {
    pub name: String,
    pub params: Vec<(String, Option<L3SchemaType>)>,
    pub ret_contract: Option<L3SchemaType>,
    pub schemas: Arc<KeyMap<L3Schema>>,
    pub body: L3ExprV2,
}

/// Arithmetic operators. There is no division.
#[derive(Clone, Copy, Debug, PartialEq, Eq, PartialOrd, Ord)]
pub enum ArithOpV2 {
    Add,
    Sub,
    Mul,
}

/// Frozen ordinal of an arithmetic operator.
pub open spec fn arith_ordinal(op: ArithOpV2) -> u64 {
    match op {
        ArithOpV2::Add => 0,
        ArithOpV2::Sub => 1,
        ArithOpV2::Mul => 2,
    }
}

impl ArithOpV2 {
    /// Frozen ordinal — ABI.
    pub fn ordinal(self) -> (n: u64)
        ensures
            n == arith_ordinal(self),
    {
        match self {
            ArithOpV2::Add => 0,
            ArithOpV2::Sub => 1,
            ArithOpV2::Mul => 2,
        }
    }
}

/// Comparison operators.
#[derive(Clone, Copy, Debug, PartialEq, Eq, PartialOrd, Ord)]
pub enum CmpOpV2 {
    Lt,
    Le,
    Gt,
    Ge,
    Eq,
    Ne,
}

/// Frozen ordinal of a comparison operator.
pub open spec fn relation_ordinal(op: CmpOpV2) -> u64 {
    match op {
        CmpOpV2::Lt => 0,
        CmpOpV2::Le => 1,
        CmpOpV2::Gt => 2,
        CmpOpV2::Ge => 3,
        CmpOpV2::Eq => 4,
        CmpOpV2::Ne => 5,
    }
}

impl CmpOpV2 {
    /// Frozen ordinal — ABI.
    pub fn ordinal(self) -> (n: u64)
        ensures
            n == relation_ordinal(self),
    {
        match self {
            CmpOpV2::Lt => 0,
            CmpOpV2::Le => 1,
            CmpOpV2::Gt => 2,
            CmpOpV2::Ge => 3,
            CmpOpV2::Eq => 4,
            CmpOpV2::Ne => 5,
        }
    }
}

/// Distinct operators have distinct frozen ordinals.
pub proof fn lemma_operator_ordinals_distinct(a: ArithOpV2, b: ArithOpV2, c: CmpOpV2, d: CmpOpV2)
    ensures
        arith_ordinal(a) == arith_ordinal(b) ==> a == b,
        relation_ordinal(c) == relation_ordinal(d) ==> c == d,
{
}

/// A match pattern: a constructor with binders or wildcards.
#[derive(Clone, Debug, PartialEq, Eq)]
pub enum L3PatternV2 {
    Ctor { variant: String, binders: Vec<Option<String>> },
}

/// One item of a lowered v2 plan.
#[derive(Clone, Debug, PartialEq, Eq)]
pub enum L3PlanItemV2 {
    Config(L3ConfigDeclV2),
    Let { name: String, value: L3ExprV2 },
    Rule {
        name: String,
        body: L3ExprV2,
        /// The rules this rule reads facts from, in first-mention order.
        depends_on: Vec<String>,
    },
}

/// A lowered v2 plan.
#[derive(Clone, Debug, PartialEq, Eq)]
pub struct L3PlanV2 {
    pub profile: String,
    pub format: u64,
    pub items: Vec<L3PlanItemV2>,
}

/// Every distinguishable way a module can fall outside the v2 fragment.
#[allow(inconsistent_fields)]
#[derive(Clone, Debug, PartialEq, Eq)]
pub enum L3V2LowerError {
    ProfileMismatch { expected: String, found: String },
    ItemNotAllowed(String),
    UndeclaredDependency { rule: String, param: String },
    UndeclaredFactRead { rule: String, fact: String },
    ForwardOrSelfDependency { rule: String, depends_on: String },
    UnresolvedReference(String),
    NonExhaustiveMatch { sum: String, missing: Vec<String> },
    DefaultArmNotAllowed,
    NestedPatternNotAllowed,
    DivisionNotAllowed,
    FloatLiteralNotAllowed(String),
    IntegerOverflow(String),
    Unsupported(String),
    FunctionArityMismatch { func: String, expected: usize, found: usize },
    DuplicateMatchBinder(String),
}

/// A v2 value.
#[derive(Debug, PartialEq, Eq, PartialOrd, Ord)]
pub enum L3ValueV2 {
    Int(i64),
    Str(String),
    Bool(bool),
    Ctor { nominal_sum: String, variant: String, args: Vec<L3ValueV2> },
    Record { nominal_config: String, fields: Vec<(String, L3ValueV2)> },
}

/// Mathematical model of an [`L3ValueV2`]: strings as character sequences.
pub enum ValueModel {
    Int(i64),
    Str(Seq<char>),
    Bool(bool),
    Ctor { nominal_sum: Seq<char>, variant: Seq<char>, args: Seq<ValueModel> },
    Record { nominal_config: Seq<char>, fields: Seq<(Seq<char>, ValueModel)> },
}

/// Model of a value.
pub open spec fn value_model(v: L3ValueV2) -> ValueModel
    decreases v, 0nat,
{
    match v {
        L3ValueV2::Int(n) => ValueModel::Int(n),
        L3ValueV2::Str(s) => ValueModel::Str(s@),
        L3ValueV2::Bool(b) => ValueModel::Bool(b),
        L3ValueV2::Ctor { nominal_sum, variant, args } => ValueModel::Ctor {
            nominal_sum: nominal_sum@,
            variant: variant@,
            args: values_prefix(args@, args@.len()),
        },
        L3ValueV2::Record { nominal_config, fields } => ValueModel::Record {
            nominal_config: nominal_config@,
            fields: fields_prefix(fields@, fields@.len()),
        },
    }
}

/// Models of the first `n` values of `s`.
pub open spec fn values_prefix(s: Seq<L3ValueV2>, n: nat) -> Seq<ValueModel>
    decreases s, n,
{
    if n == 0 || n > s.len() {
        Seq::empty()
    } else {
        values_prefix(s, (n - 1) as nat).push(value_model(s[n - 1]))
    }
}

/// Models of the first `n` named values of `s`.
pub open spec fn fields_prefix(s: Seq<(String, L3ValueV2)>, n: nat) -> Seq<(Seq<char>, ValueModel)>
    decreases s, n,
{
    if n == 0 || n > s.len() {
        Seq::empty()
    } else {
        fields_prefix(s, (n - 1) as nat).push((s[n - 1].0@, value_model(s[n - 1].1)))
    }
}

impl View for L3ValueV2 {
    type V = ValueModel;

    open spec fn view(&self) -> ValueModel {
        value_model(*self)
    }
}

/// Models of a sequence of values.
pub open spec fn values_model(s: Seq<L3ValueV2>) -> Seq<ValueModel> {
    values_prefix(s, s.len())
}

/// Models of a sequence of named values.
pub open spec fn fields_model(s: Seq<(String, L3ValueV2)>) -> Seq<(Seq<char>, ValueModel)> {
    fields_prefix(s, s.len())
}

pub broadcast proof fn lemma_values_prefix(s: Seq<L3ValueV2>, n: nat)
    requires
        n <= s.len(),
    ensures
        #[trigger] values_prefix(s, n).len() == n,
        forall|i: int| 0 <= i < n ==> #[trigger] values_prefix(s, n)[i] == s[i]@,
    decreases n,
{
    if n > 0 {
        lemma_values_prefix(s, (n - 1) as nat);
    }
}

pub broadcast proof fn lemma_fields_prefix(s: Seq<(String, L3ValueV2)>, n: nat)
    requires
        n <= s.len(),
    ensures
        #[trigger] fields_prefix(s, n).len() == n,
        forall|i: int| 0 <= i < n ==> #[trigger] fields_prefix(s, n)[i] == (s[i].0@, s[i].1@),
    decreases n,
{
    if n > 0 {
        lemma_fields_prefix(s, (n - 1) as nat);
    }
}

pub proof fn lemma_values_model(s: Seq<L3ValueV2>)
    ensures
        values_model(s).len() == s.len(),
        forall|i: int| 0 <= i < s.len() ==> #[trigger] values_model(s)[i] == s[i]@,
{
    lemma_values_prefix(s, s.len());
}

pub proof fn lemma_fields_model(s: Seq<(String, L3ValueV2)>)
    ensures
        fields_model(s).len() == s.len(),
        forall|i: int| 0 <= i < s.len() ==> #[trigger] fields_model(s)[i] == (s[i].0@, s[i].1@),
{
    lemma_fields_prefix(s, s.len());
}

pub proof fn lemma_ctor_view(v: L3ValueV2)
    ensures
        v matches L3ValueV2::Ctor { nominal_sum, variant, args } ==> v@ == (ValueModel::Ctor {
            nominal_sum: nominal_sum@,
            variant: variant@,
            args: values_model(args@),
        }),
        v matches L3ValueV2::Record { nominal_config, fields } ==> v@ == (ValueModel::Record {
            nominal_config: nominal_config@,
            fields: fields_model(fields@),
        }),
{
}

/// Why an evaluation could not produce a value. Every variant is a refusal.
#[derive(Clone, Debug, PartialEq, Eq)]
pub enum EvalFault {
    /// Checked arithmetic overflowed.
    Overflow(ArithOpV2),
    /// A binding or fact that is not in scope.
    Unbound(String),
    /// A field projected from a non-record, or a field the record lacks.
    NoSuchField(String),
    /// A `match` whose scrutinee matched no arm.
    NoMatchingArm,
    /// An operator applied to operands of the wrong shape.
    OperandShape(&'static str),
    /// A function call exceeded the maximum call stack depth.
    CallDepthExceeded { limit: usize, func: String },
    /// Evaluation exceeded a resource limit.
    ResourceExhausted { limit: usize, detail: String },
    /// A contract violation at a function call boundary.
    ContractViolation {
        func: String,
        param: Option<String>,
        expected: String,
        found: String,
        path: Option<String>,
    },
}

/// Mathematical model of an [`EvalFault`].
pub enum FaultModel {
    Overflow(ArithOpV2),
    Unbound(Seq<char>),
    NoSuchField(Seq<char>),
    NoMatchingArm,
    OperandShape(Seq<char>),
    CallDepthExceeded { limit: usize, func: Seq<char> },
    ResourceExhausted { limit: usize, detail: Seq<char> },
    ContractViolation {
        func: Seq<char>,
        param: Option<Seq<char>>,
        expected: Seq<char>,
        found: Seq<char>,
        path: Option<Seq<char>>,
    },
}

/// Model of an optional string.
pub open spec fn opt_text(o: Option<String>) -> Option<Seq<char>> {
    match o {
        Some(s) => Some(s@),
        None => None,
    }
}

impl View for EvalFault {
    type V = FaultModel;

    open spec fn view(&self) -> FaultModel {
        match self {
            EvalFault::Overflow(op) => FaultModel::Overflow(*op),
            EvalFault::Unbound(s) => FaultModel::Unbound(s@),
            EvalFault::NoSuchField(s) => FaultModel::NoSuchField(s@),
            EvalFault::NoMatchingArm => FaultModel::NoMatchingArm,
            EvalFault::OperandShape(s) => FaultModel::OperandShape(s@),
            EvalFault::CallDepthExceeded { limit, func } => FaultModel::CallDepthExceeded {
                limit: *limit,
                func: func@,
            },
            EvalFault::ResourceExhausted { limit, detail } => FaultModel::ResourceExhausted {
                limit: *limit,
                detail: detail@,
            },
            EvalFault::ContractViolation { func, param, expected, found, path } =>
                FaultModel::ContractViolation {
                func: func@,
                param: opt_text(*param),
                expected: expected@,
                found: found@,
                path: opt_text(*path),
            },
        }
    }
}

/// Compute the nominal/primitive type category of an evaluated value.
pub fn type_of_value(v: &L3ValueV2) -> (t: L3ValueType)
    ensures
        t == type_of(*v),
{
    match v {
        L3ValueV2::Int(_) => L3ValueType::Int,
        L3ValueV2::Str(_) => L3ValueType::Str,
        L3ValueV2::Bool(_) => L3ValueType::Bool,
        L3ValueV2::Ctor { nominal_sum, .. } => L3ValueType::Sum(nominal_sum.clone()),
        L3ValueV2::Record { nominal_config, .. } => L3ValueType::Record(nominal_config.clone()),
    }
}

/// Type category of a value.
pub open spec fn type_of(v: L3ValueV2) -> L3ValueType {
    match v {
        L3ValueV2::Int(_) => L3ValueType::Int,
        L3ValueV2::Str(_) => L3ValueType::Str,
        L3ValueV2::Bool(_) => L3ValueType::Bool,
        L3ValueV2::Ctor { nominal_sum, .. } => L3ValueType::Sum(nominal_sum),
        L3ValueV2::Record { nominal_config, .. } => L3ValueType::Record(nominal_config),
    }
}

/// Rendering of the type category of a value model.
pub open spec fn model_type_text(v: ValueModel) -> Seq<char> {
    match v {
        ValueModel::Int(_) => "Int"@,
        ValueModel::Str(_) => "Str"@,
        ValueModel::Bool(_) => "Bool"@,
        ValueModel::Ctor { nominal_sum, .. } => "Sum("@ + nominal_sum + ")"@,
        ValueModel::Record { nominal_config, .. } => "Record("@ + nominal_config + ")"@,
    }
}

impl L3ValueV2 {
    /// A copy of this value.
    #[verifier::loop_isolation(false)]
    pub fn duplicate(&self) -> (r: L3ValueV2)
        ensures
            r@ == self@,
        decreases self,
    {
        match self {
            L3ValueV2::Int(n) => L3ValueV2::Int(*n),
            L3ValueV2::Str(s) => L3ValueV2::Str(s.clone()),
            L3ValueV2::Bool(b) => L3ValueV2::Bool(*b),
            L3ValueV2::Ctor { nominal_sum, variant, args } => {
                let mut out: Vec<L3ValueV2> = Vec::new();
                let mut i: usize = 0;
                while i < args.len()
                    invariant
                        i <= args@.len(),
                        out@.len() == i,
                        forall|j: int| 0 <= j < i ==> #[trigger] out@[j]@ == args@[j]@,
                    decreases args@.len() - i,
                {
                    proof {
                        assert(decreases_to!(*self => self->Ctor_args));
                        assert(decreases_to!(self->Ctor_args => self->Ctor_args@));
                        assert(decreases_to!(self->Ctor_args@ => self->Ctor_args@[i as int]));
                    }
                    let v = args[i].duplicate();
                    out.push(v);
                    i = i + 1;
                }
                let r = L3ValueV2::Ctor {
                    nominal_sum: nominal_sum.clone(),
                    variant: variant.clone(),
                    args: out,
                };
                proof {
                    lemma_values_model(out@);
                    lemma_values_model(args@);
                    assert(values_model(out@) =~= values_model(args@));
                }
                r
            },
            L3ValueV2::Record { nominal_config, fields } => {
                let mut out: Vec<(String, L3ValueV2)> = Vec::new();
                let mut i: usize = 0;
                while i < fields.len()
                    invariant
                        i <= fields@.len(),
                        out@.len() == i,
                        forall|j: int|
                            0 <= j < i ==> #[trigger] out@[j].0@ == fields@[j].0@ && out@[j].1@
                                == fields@[j].1@,
                    decreases fields@.len() - i,
                {
                    proof {
                        assert(decreases_to!(*self => self->Record_fields));
                        assert(decreases_to!(self->Record_fields => self->Record_fields@));
                        assert(decreases_to!(self->Record_fields@ => self->Record_fields@[i as int]));
                        assert(decreases_to!(self->Record_fields@[i as int] => self->Record_fields@[i as int].1));
                    }
                    let k = fields[i].0.clone();
                    let v = fields[i].1.duplicate();
                    out.push((k, v));
                    i = i + 1;
                }
                let r = L3ValueV2::Record { nominal_config: nominal_config.clone(), fields: out };
                proof {
                    lemma_fields_model(out@);
                    lemma_fields_model(fields@);
                    assert(fields_model(out@) =~= fields_model(fields@));
                }
                r
            },
        }
    }

    /// Structural equality, as the derived `==` compares.
    #[verifier::loop_isolation(false)]
    pub fn same_as(&self, other: &L3ValueV2) -> (b: bool)
        ensures
            b == (self@ == other@),
        decreases self,
    {
        match (self, other) {
            (L3ValueV2::Int(a), L3ValueV2::Int(b)) => *a == *b,
            (L3ValueV2::Bool(a), L3ValueV2::Bool(b)) => *a == *b,
            (L3ValueV2::Str(a), L3ValueV2::Str(b)) => crate::keymap::same_text(a.as_str(), b.as_str()),
            (
                L3ValueV2::Ctor { nominal_sum: s1, variant: v1, args: a1 },
                L3ValueV2::Ctor { nominal_sum: s2, variant: v2, args: a2 },
            ) => {
                proof {
                    lemma_values_model(a1@);
                    lemma_values_model(a2@);
                }
                if !crate::keymap::same_text(s1.as_str(), s2.as_str()) {
                    return false;
                }
                if !crate::keymap::same_text(v1.as_str(), v2.as_str()) {
                    return false;
                }
                if a1.len() != a2.len() {
                    return false;
                }
                let mut i: usize = 0;
                while i < a1.len()
                    invariant
                        i <= a1@.len(),
                        a1@.len() == a2@.len(),
                        forall|j: int| 0 <= j < i ==> #[trigger] a1@[j]@ == a2@[j]@,
                    decreases a1@.len() - i,
                {
                    proof {
                        assert(decreases_to!(*self => self->Ctor_args));
                        assert(decreases_to!(self->Ctor_args => self->Ctor_args@));
                        assert(decreases_to!(self->Ctor_args@ => self->Ctor_args@[i as int]));
                    }
                    if !a1[i].same_as(&a2[i]) {
                        proof {
                            assert(values_model(a1@)[i as int] != values_model(a2@)[i as int]);
                        }
                        return false;
                    }
                    i = i + 1;
                }
                proof {
                    assert(values_model(a1@) =~= values_model(a2@));
                }
                true
            },
            (
                L3ValueV2::Record { nominal_config: c1, fields: f1 },
                L3ValueV2::Record { nominal_config: c2, fields: f2 },
            ) => {
                proof {
                    lemma_fields_model(f1@);
                    lemma_fields_model(f2@);
                }
                if !crate::keymap::same_text(c1.as_str(), c2.as_str()) {
                    return false;
                }
                if f1.len() != f2.len() {
                    return false;
                }
                let mut i: usize = 0;
                while i < f1.len()
                    invariant
                        i <= f1@.len(),
                        f1@.len() == f2@.len(),
                        forall|j: int|
                            0 <= j < i ==> (#[trigger] f1@[j]).0@ == f2@[j].0@ && f1@[j].1@
                                == f2@[j].1@,
                    decreases f1@.len() - i,
                {
                    proof {
                        assert(decreases_to!(*self => self->Record_fields));
                        assert(decreases_to!(self->Record_fields => self->Record_fields@));
                        assert(decreases_to!(self->Record_fields@ => self->Record_fields@[i as int]));
                        assert(decreases_to!(self->Record_fields@[i as int] => self->Record_fields@[i as int].1));
                    }
                    if !crate::keymap::same_text(f1[i].0.as_str(), f2[i].0.as_str()) {
                        proof {
                            assert(fields_model(f1@)[i as int] != fields_model(f2@)[i as int]);
                        }
                        return false;
                    }
                    if !f1[i].1.same_as(&f2[i].1) {
                        proof {
                            assert(fields_model(f1@)[i as int] != fields_model(f2@)[i as int]);
                        }
                        return false;
                    }
                    assert(f1@[i as int].0@ == f2@[i as int].0@ && f1@[i as int].1@ == f2@[i as int].1@);
                    i = i + 1;
                }
                proof {
                    assert(fields_model(f1@) =~= fields_model(f2@));
                }
                true
            },
            _ => false,
        }
    }
}

impl Clone for L3ValueV2 {
    fn clone(&self) -> (r: Self)
        ensures
            r@ == self@,
    {
        self.duplicate()
    }
}

/// The `Debug` name of an arithmetic operator.
pub open spec fn arith_name(op: ArithOpV2) -> Seq<char> {
    match op {
        ArithOpV2::Add => "Add"@,
        ArithOpV2::Sub => "Sub"@,
        ArithOpV2::Mul => "Mul"@,
    }
}

/// The `Debug` name of an arithmetic operator.
pub fn arith_name_text(op: ArithOpV2) -> (s: String)
    ensures
        s@ == arith_name(op),
{
    match op {
        ArithOpV2::Add => owned("Add"),
        ArithOpV2::Sub => owned("Sub"),
        ArithOpV2::Mul => owned("Mul"),
    }
}

/// Where a contract violation was found, when a path is known.
pub open spec fn location_text(path: Option<String>) -> Seq<char> {
    match path {
        Some(p) => " at "@ + p@,
        None => Seq::empty(),
    }
}

/// The diagnostic text of an evaluation fault.
pub open spec fn fault_text(e: EvalFault) -> Seq<char> {
    match e {
        EvalFault::Overflow(op) => "arithmetic overflow ("@ + arith_name(op) + ")"@,
        EvalFault::Unbound(name) => "unbound identifier: "@ + name@,
        EvalFault::NoSuchField(field) => "no such field: "@ + field@,
        EvalFault::NoMatchingArm => "no matching arm in match expression"@,
        EvalFault::OperandShape(detail) => "operand shape error: "@ + detail@,
        EvalFault::CallDepthExceeded { limit, func } => "call depth limit ("@ + decimal(limit as nat)
            + ") exceeded calling '"@ + func@ + "'"@,
        EvalFault::ResourceExhausted { limit, detail } => "resource limit ("@ + decimal(limit as nat) + ") exhausted: "@
            + detail@,
        EvalFault::ContractViolation { func, param, expected, found, path } => match param {
            Some(p) => "contract violation in function '"@ + func@ + "' for parameter '"@ + p@ + "'"@ + location_text(
                path,
            ) + ": expected "@ + expected@ + ", found "@ + found@,
            None => "return contract violation in function '"@ + func@ + "'"@ + location_text(path) + ": expected "@
                + expected@ + ", found "@ + found@,
        },
    }
}

impl EvalFault {
    /// The diagnostic text of this fault.
    pub fn to_display_string(&self) -> (s: String)
        ensures
            s@ == fault_text(*self),
    {
        match self {
            EvalFault::Overflow(op) => {
                let t = arith_name_text(*op);
                join3("arithmetic overflow (", t.as_str(), ")")
            },
            EvalFault::Unbound(name) => join2("unbound identifier: ", name.as_str()),
            EvalFault::NoSuchField(field) => join2("no such field: ", field.as_str()),
            EvalFault::NoMatchingArm => owned("no matching arm in match expression"),
            EvalFault::OperandShape(detail) => join2("operand shape error: ", *detail),
            EvalFault::CallDepthExceeded { limit, func } => {
                let t = usize_text(*limit);
                join5("call depth limit (", t.as_str(), ") exceeded calling '", func.as_str(), "'")
            },
            EvalFault::ResourceExhausted { limit, detail } => {
                let t = usize_text(*limit);
                join4("resource limit (", t.as_str(), ") exhausted: ", detail.as_str())
            },
            EvalFault::ContractViolation { func, param, expected, found, path } => {
                let mut s = match param {
                    Some(p) => join5("contract violation in function '", func.as_str(), "' for parameter '", p.as_str(), "'"),
                    None => join3("return contract violation in function '", func.as_str(), "'"),
                };
                let ghost head = s@;
                match path {
                    Some(p) => {
                        s.append(" at ");
                        s.append(p.as_str());
                    },
                    None => {},
                }
                proof {
                    assert(s@ =~= head + location_text(*path));
                }
                s.append(": expected ");
                s.append(expected.as_str());
                s.append(", found ");
                s.append(found.as_str());
                s
            },
        }
    }
}

/// The diagnostic text of a lowering error.
pub open spec fn lower_error_text(e: L3V2LowerError) -> Seq<char> {
    match e {
        L3V2LowerError::ProfileMismatch { expected, found } => "profile mismatch: expected '"@ + expected@ + "', found '"@ + found@ + "'"@,
        L3V2LowerError::ItemNotAllowed(item) => "item not allowed in v2: "@ + item@,
        L3V2LowerError::UndeclaredDependency { rule, param } => "rule '"@ + rule@ + "' has undeclared dependency '"@ + param@ + "'"@,
        L3V2LowerError::UndeclaredFactRead { rule, fact } => "rule '"@ + rule@ + "' reads undeclared fact '"@ + fact@ + "'"@,
        L3V2LowerError::ForwardOrSelfDependency { rule, depends_on } => "rule '"@ + rule@ + "' has forward or self dependency on '"@ + depends_on@ + "'"@,
        L3V2LowerError::UnresolvedReference(name) => "unresolved reference: "@ + name@,
        L3V2LowerError::NonExhaustiveMatch { sum, missing } => "non-exhaustive match on '"@ + sum@ + "', missing: "@ + debug_list(missing@.map_values(|s: String| s@)),
        L3V2LowerError::DefaultArmNotAllowed => "default arm not allowed in match"@,
        L3V2LowerError::NestedPatternNotAllowed => "nested pattern not allowed in match"@,
        L3V2LowerError::DivisionNotAllowed => "division operator not allowed in v2"@,
        L3V2LowerError::FloatLiteralNotAllowed(lit) => "float literal not allowed: "@ + lit@,
        L3V2LowerError::IntegerOverflow(lit) => "integer literal overflow: "@ + lit@,
        L3V2LowerError::Unsupported(feature) => "unsupported feature: "@ + feature@,
        L3V2LowerError::FunctionArityMismatch { func, expected, found } => "function '"@ + func@ + "' expected "@ + decimal(expected as nat) + " argument(s), found "@ + decimal(found as nat),
        L3V2LowerError::DuplicateMatchBinder(name) => "duplicate match pattern binder: '"@ + name@ + "'"@,
    }
}

impl L3V2LowerError {
    /// The diagnostic text of a lowering error.
    pub fn to_display_string(&self) -> (s: String)
        ensures
            s@ == lower_error_text(*self),
    {
        match self {
            L3V2LowerError::ProfileMismatch { expected, found } => {
                let mut s = owned("profile mismatch: expected '");
                s.append(expected.as_str());
                s.append("', found '");
                s.append(found.as_str());
                s.append("'");
                s
            },
            L3V2LowerError::ItemNotAllowed(item) => {
                let mut s = owned("item not allowed in v2: ");
                s.append(item.as_str());
                s
            },
            L3V2LowerError::UndeclaredDependency { rule, param } => {
                let mut s = owned("rule '");
                s.append(rule.as_str());
                s.append("' has undeclared dependency '");
                s.append(param.as_str());
                s.append("'");
                s
            },
            L3V2LowerError::UndeclaredFactRead { rule, fact } => {
                let mut s = owned("rule '");
                s.append(rule.as_str());
                s.append("' reads undeclared fact '");
                s.append(fact.as_str());
                s.append("'");
                s
            },
            L3V2LowerError::ForwardOrSelfDependency { rule, depends_on } => {
                let mut s = owned("rule '");
                s.append(rule.as_str());
                s.append("' has forward or self dependency on '");
                s.append(depends_on.as_str());
                s.append("'");
                s
            },
            L3V2LowerError::UnresolvedReference(name) => {
                let mut s = owned("unresolved reference: ");
                s.append(name.as_str());
                s
            },
            L3V2LowerError::NonExhaustiveMatch { sum, missing } => {
                let mut s = owned("non-exhaustive match on '");
                s.append(sum.as_str());
                s.append("', missing: ");
                let t2 = debug_string_list(missing);
                s.append(t2.as_str());
                s
            },
            L3V2LowerError::DefaultArmNotAllowed => {
                let mut s = owned("default arm not allowed in match");
                s
            },
            L3V2LowerError::NestedPatternNotAllowed => {
                let mut s = owned("nested pattern not allowed in match");
                s
            },
            L3V2LowerError::DivisionNotAllowed => {
                let mut s = owned("division operator not allowed in v2");
                s
            },
            L3V2LowerError::FloatLiteralNotAllowed(lit) => {
                let mut s = owned("float literal not allowed: ");
                s.append(lit.as_str());
                s
            },
            L3V2LowerError::IntegerOverflow(lit) => {
                let mut s = owned("integer literal overflow: ");
                s.append(lit.as_str());
                s
            },
            L3V2LowerError::Unsupported(feature) => {
                let mut s = owned("unsupported feature: ");
                s.append(feature.as_str());
                s
            },
            L3V2LowerError::FunctionArityMismatch { func, expected, found } => {
                let mut s = owned("function '");
                s.append(func.as_str());
                s.append("' expected ");
                let t2 = usize_text(*expected);
                s.append(t2.as_str());
                s.append(" argument(s), found ");
                let t4 = usize_text(*found);
                s.append(t4.as_str());
                s
            },
            L3V2LowerError::DuplicateMatchBinder(name) => {
                let mut s = owned("duplicate match pattern binder: '");
                s.append(name.as_str());
                s.append("'");
                s
            },
        }
    }
}

/// The `Debug` rendering of a lowering error.
pub open spec fn lower_error_debug(e: L3V2LowerError) -> Seq<char> {
    match e {
        L3V2LowerError::ProfileMismatch { expected, found } => "ProfileMismatch { expected: "@ + debug_quoted(expected@) + ", found: "@ + debug_quoted(found@) + " }"@,
        L3V2LowerError::ItemNotAllowed(item) => "ItemNotAllowed("@ + debug_quoted(item@) + ")"@,
        L3V2LowerError::UndeclaredDependency { rule, param } => "UndeclaredDependency { rule: "@ + debug_quoted(rule@) + ", param: "@ + debug_quoted(param@) + " }"@,
        L3V2LowerError::UndeclaredFactRead { rule, fact } => "UndeclaredFactRead { rule: "@ + debug_quoted(rule@) + ", fact: "@ + debug_quoted(fact@) + " }"@,
        L3V2LowerError::ForwardOrSelfDependency { rule, depends_on } => "ForwardOrSelfDependency { rule: "@ + debug_quoted(rule@) + ", depends_on: "@ + debug_quoted(depends_on@) + " }"@,
        L3V2LowerError::UnresolvedReference(name) => "UnresolvedReference("@ + debug_quoted(name@) + ")"@,
        L3V2LowerError::NonExhaustiveMatch { sum, missing } => "NonExhaustiveMatch { sum: "@ + debug_quoted(sum@) + ", missing: "@ + debug_list(missing@.map_values(|s: String| s@)) + " }"@,
        L3V2LowerError::DefaultArmNotAllowed => "DefaultArmNotAllowed"@,
        L3V2LowerError::NestedPatternNotAllowed => "NestedPatternNotAllowed"@,
        L3V2LowerError::DivisionNotAllowed => "DivisionNotAllowed"@,
        L3V2LowerError::FloatLiteralNotAllowed(lit) => "FloatLiteralNotAllowed("@ + debug_quoted(lit@) + ")"@,
        L3V2LowerError::IntegerOverflow(lit) => "IntegerOverflow("@ + debug_quoted(lit@) + ")"@,
        L3V2LowerError::Unsupported(feature) => "Unsupported("@ + debug_quoted(feature@) + ")"@,
        L3V2LowerError::FunctionArityMismatch { func, expected, found } => "FunctionArityMismatch { func: "@ + debug_quoted(func@) + ", expected: "@ + decimal(expected as nat) + ", found: "@ + decimal(found as nat) + " }"@,
        L3V2LowerError::DuplicateMatchBinder(name) => "DuplicateMatchBinder("@ + debug_quoted(name@) + ")"@,
    }
}

impl L3V2LowerError {
    /// The `Debug` rendering of a lowering error.
    pub fn to_debug_string(&self) -> (s: String)
        ensures
            s@ == lower_error_debug(*self),
    {
        match self {
            L3V2LowerError::ProfileMismatch { expected, found } => {
                let mut s = owned("ProfileMismatch { expected: ");
                let t0 = debug_str(expected.as_str());
                s.append(t0.as_str());
                s.append(", found: ");
                let t2 = debug_str(found.as_str());
                s.append(t2.as_str());
                s.append(" }");
                s
            },
            L3V2LowerError::ItemNotAllowed(item) => {
                let mut s = owned("ItemNotAllowed(");
                let t0 = debug_str(item.as_str());
                s.append(t0.as_str());
                s.append(")");
                s
            },
            L3V2LowerError::UndeclaredDependency { rule, param } => {
                let mut s = owned("UndeclaredDependency { rule: ");
                let t0 = debug_str(rule.as_str());
                s.append(t0.as_str());
                s.append(", param: ");
                let t2 = debug_str(param.as_str());
                s.append(t2.as_str());
                s.append(" }");
                s
            },
            L3V2LowerError::UndeclaredFactRead { rule, fact } => {
                let mut s = owned("UndeclaredFactRead { rule: ");
                let t0 = debug_str(rule.as_str());
                s.append(t0.as_str());
                s.append(", fact: ");
                let t2 = debug_str(fact.as_str());
                s.append(t2.as_str());
                s.append(" }");
                s
            },
            L3V2LowerError::ForwardOrSelfDependency { rule, depends_on } => {
                let mut s = owned("ForwardOrSelfDependency { rule: ");
                let t0 = debug_str(rule.as_str());
                s.append(t0.as_str());
                s.append(", depends_on: ");
                let t2 = debug_str(depends_on.as_str());
                s.append(t2.as_str());
                s.append(" }");
                s
            },
            L3V2LowerError::UnresolvedReference(name) => {
                let mut s = owned("UnresolvedReference(");
                let t0 = debug_str(name.as_str());
                s.append(t0.as_str());
                s.append(")");
                s
            },
            L3V2LowerError::NonExhaustiveMatch { sum, missing } => {
                let mut s = owned("NonExhaustiveMatch { sum: ");
                let t0 = debug_str(sum.as_str());
                s.append(t0.as_str());
                s.append(", missing: ");
                let t2 = debug_string_list(missing);
                s.append(t2.as_str());
                s.append(" }");
                s
            },
            L3V2LowerError::DefaultArmNotAllowed => {
                let mut s = owned("DefaultArmNotAllowed");
                s
            },
            L3V2LowerError::NestedPatternNotAllowed => {
                let mut s = owned("NestedPatternNotAllowed");
                s
            },
            L3V2LowerError::DivisionNotAllowed => {
                let mut s = owned("DivisionNotAllowed");
                s
            },
            L3V2LowerError::FloatLiteralNotAllowed(lit) => {
                let mut s = owned("FloatLiteralNotAllowed(");
                let t0 = debug_str(lit.as_str());
                s.append(t0.as_str());
                s.append(")");
                s
            },
            L3V2LowerError::IntegerOverflow(lit) => {
                let mut s = owned("IntegerOverflow(");
                let t0 = debug_str(lit.as_str());
                s.append(t0.as_str());
                s.append(")");
                s
            },
            L3V2LowerError::Unsupported(feature) => {
                let mut s = owned("Unsupported(");
                let t0 = debug_str(feature.as_str());
                s.append(t0.as_str());
                s.append(")");
                s
            },
            L3V2LowerError::FunctionArityMismatch { func, expected, found } => {
                let mut s = owned("FunctionArityMismatch { func: ");
                let t0 = debug_str(func.as_str());
                s.append(t0.as_str());
                s.append(", expected: ");
                let t2 = usize_text(*expected);
                s.append(t2.as_str());
                s.append(", found: ");
                let t4 = usize_text(*found);
                s.append(t4.as_str());
                s.append(" }");
                s
            },
            L3V2LowerError::DuplicateMatchBinder(name) => {
                let mut s = owned("DuplicateMatchBinder(");
                let t0 = debug_str(name.as_str());
                s.append(t0.as_str());
                s.append(")");
                s
            },
        }
    }
}

/// The `Debug` rendering of an evaluation fault.
pub open spec fn fault_debug(e: EvalFault) -> Seq<char> {
    match e {
        EvalFault::Overflow(op) => "Overflow("@ + arith_name(op) + ")"@,
        EvalFault::Unbound(name) => "Unbound("@ + debug_quoted(name@) + ")"@,
        EvalFault::NoSuchField(field) => "NoSuchField("@ + debug_quoted(field@) + ")"@,
        EvalFault::NoMatchingArm => "NoMatchingArm"@,
        EvalFault::OperandShape(detail) => "OperandShape("@ + debug_quoted(detail@) + ")"@,
        EvalFault::CallDepthExceeded { limit, func } => "CallDepthExceeded { limit: "@ + decimal(limit as nat) + ", func: "@ + debug_quoted(func@) + " }"@,
        EvalFault::ResourceExhausted { limit, detail } => "ResourceExhausted { limit: "@ + decimal(limit as nat) + ", detail: "@ + debug_quoted(detail@) + " }"@,
        EvalFault::ContractViolation { func, param, expected, found, path } => "ContractViolation { func: "@ + debug_quoted(func@) + ", param: "@ + debug_option(opt_text(param)) + ", expected: "@ + debug_quoted(expected@) + ", found: "@ + debug_quoted(found@) + ", path: "@ + debug_option(opt_text(path)) + " }"@,
    }
}

impl EvalFault {
    /// The `Debug` rendering of an evaluation fault.
    pub fn to_debug_string(&self) -> (s: String)
        ensures
            s@ == fault_debug(*self),
    {
        match self {
            EvalFault::Overflow(op) => {
                let mut s = owned("Overflow(");
                let t0 = arith_name_text(*op);
                s.append(t0.as_str());
                s.append(")");
                s
            },
            EvalFault::Unbound(name) => {
                let mut s = owned("Unbound(");
                let t0 = debug_str(name.as_str());
                s.append(t0.as_str());
                s.append(")");
                s
            },
            EvalFault::NoSuchField(field) => {
                let mut s = owned("NoSuchField(");
                let t0 = debug_str(field.as_str());
                s.append(t0.as_str());
                s.append(")");
                s
            },
            EvalFault::NoMatchingArm => {
                let mut s = owned("NoMatchingArm");
                s
            },
            EvalFault::OperandShape(detail) => {
                let mut s = owned("OperandShape(");
                let t0 = debug_str(*detail);
                s.append(t0.as_str());
                s.append(")");
                s
            },
            EvalFault::CallDepthExceeded { limit, func } => {
                let mut s = owned("CallDepthExceeded { limit: ");
                let t0 = usize_text(*limit);
                s.append(t0.as_str());
                s.append(", func: ");
                let t2 = debug_str(func.as_str());
                s.append(t2.as_str());
                s.append(" }");
                s
            },
            EvalFault::ResourceExhausted { limit, detail } => {
                let mut s = owned("ResourceExhausted { limit: ");
                let t0 = usize_text(*limit);
                s.append(t0.as_str());
                s.append(", detail: ");
                let t2 = debug_str(detail.as_str());
                s.append(t2.as_str());
                s.append(" }");
                s
            },
            EvalFault::ContractViolation { func, param, expected, found, path } => {
                let mut s = owned("ContractViolation { func: ");
                let t0 = debug_str(func.as_str());
                s.append(t0.as_str());
                s.append(", param: ");
                let t2 = debug_opt(param);
                s.append(t2.as_str());
                s.append(", expected: ");
                let t4 = debug_str(expected.as_str());
                s.append(t4.as_str());
                s.append(", found: ");
                let t6 = debug_str(found.as_str());
                s.append(t6.as_str());
                s.append(", path: ");
                let t8 = debug_opt(path);
                s.append(t8.as_str());
                s.append(" }");
                s
            },
        }
    }
}

} // verus!
