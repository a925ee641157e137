//! The rule-agenda plan: closed static values and the normalization that
//! produces them, the limits a plan is held to, the running value budget,
//! and the rejection of recursive configs.
use vstd::prelude::*;

use crate::text::{byte_len, text_len};

pub mod recursion;
pub mod normalize;
pub mod plan;

pub use recursion::{config_deps, detect_recursive_configs, ConfigState};

verus! {

/// The live profile marker of rule-agenda plans.
pub const L3_PROFILE_MARKER_V1: &'static str = "brix.l3.rule-agenda-saturated@1";

/// The retired profile marker; it is never minted and is rejected like any
/// other unknown marker.
pub const L3_PROFILE_MARKER_RETIRED_V0: &'static str = "brix.l3.rule-agenda@1";

/// A payload type: `Int`, `Str`, or a nominal config named.
#[derive(Clone, Debug, PartialEq, Eq)]
pub enum L3TypeRef {
    Int,
    Str,
    Config(String),
}

/// A config body in declaration order.
#[derive(Clone, Debug, PartialEq, Eq)]
pub enum L3ConfigBody {
    Record(Vec<(String, L3TypeRef)>),
    Sum(Vec<(String, Vec<L3TypeRef>)>),
}

/// A validated `config` declaration.
#[derive(Clone, Debug, PartialEq, Eq)]
pub struct L3ConfigDecl {
    pub name: String,
    pub body: L3ConfigBody,
}

/// A closed static value.
#[derive(Debug, PartialEq, Eq)]
pub enum L3ValueV1 {
    Int(i64),
    Str(String),
    Record { nominal_config: String, fields: Vec<(String, L3ValueV1)> },
    NullaryVariant { nominal_sum: String, variant: String },
}

/// One item of a lowered plan, in module order.
#[derive(Clone, Debug, PartialEq, Eq)]
pub enum L3PlanItem {
    Config(L3ConfigDecl),
    Let { name: String, value: L3ValueV1 },
    Rule { ordinal: u64, name: String, value: L3ValueV1 },
}

/// The limits that decide whether a plan is admissible.
#[derive(Clone, Copy, Debug, PartialEq, Eq, Structural)]
pub struct PlanLimitsV1 {
    pub max_selected_rules: u64,
    pub max_config_nodes: u64,
    pub max_total_value_nodes: u64,
    pub max_total_value_bytes: u64,
    pub max_value_depth: u64,
}

impl PlanLimitsV1 {
    /// Limits no ordinary plan reaches: every one at its maximum.
    pub fn generous() -> (l: Self)
        ensures
            l.max_selected_rules == u64::MAX,
            l.max_config_nodes == u64::MAX,
            l.max_total_value_nodes == u64::MAX,
            l.max_total_value_bytes == u64::MAX,
            l.max_value_depth == u64::MAX,
    {
        PlanLimitsV1 {
            max_selected_rules: u64::MAX,
            max_config_nodes: u64::MAX,
            max_total_value_nodes: u64::MAX,
            max_total_value_bytes: u64::MAX,
            max_value_depth: u64::MAX,
        }
    }
}

/// A validated rule-agenda plan.
#[derive(Clone, Debug, PartialEq, Eq)]
pub struct L3PlanV1 {
    pub profile: String,
    pub items: Vec<L3PlanItem>,
    pub limits: PlanLimitsV1,
}

/// Every way a module can fail to lie in the rule-agenda fragment.
#[derive(Clone, Debug, PartialEq, Eq)]
pub enum L3LowerError {
    ProfileMismatch { expected: String, found: String },
    FnItemNotAllowed(String),
    RegimeItemNotAllowed(String),
    ShowItemNotAllowed,
    UnresolvedImport(String),
    WitnessItemNotAllowed(String),
    ProposeItemNotAllowed(String),
    CommitItemNotAllowed(String),
    InputItemNotAllowed(String),
    ParameterizedRule(String),
    DuplicateItemName(String),
    DuplicateConfigMember { config: String, member: String },
    UnknownTypeName(String),
    UnsupportedPrimitiveType(String),
    AnonymousRecordTypeNotAllowed,
    RecursiveConfig { cycle: Vec<String> },
    GradeAssertionUnsupported(String),
    UnclosedReference(String),
    ForwardLetReference(String),
    RecursiveLetReference(String),
    AmbiguousConstructorReference(String),
    CallNotAllowed(String),
    PayloadBearingConstructor(String),
    FieldAccessNotAllowed(String),
    MatchNotAllowed,
    ArithmeticNotAllowed,
    ComparisonNotAllowed,
    BooleanLiteralNotAllowed,
    WitnessCompositionNotAllowed,
    ProveNotAllowed,
    WhyNotAllowed,
    AuditNotAllowed,
    FloatLiteralNotAllowed(String),
    IntegerOverflow(String),
    MissingRecordField { config: String, field: String },
    UnknownRecordField { config: String, field: String },
    DuplicateRecordLiteralField { config: String, field: String },
    NotARecordConfig(String),
    DeclaredTypeMismatch { name: String, expected: String, found: String },
    RuleCountExceeded { limit: u64, actual: u64 },
    ConfigNodeLimitExceeded { limit: u64, actual: u64 },
    ValueNodeLimitExceeded { limit: u64, actual: u64 },
    ValueByteLimitExceeded { limit: u64, actual: u64 },
    ValueDepthExceeded { limit: u64, actual: u64 },
}

/// Model of a closed static value.
pub enum StaticModel {
    Int(i64),
    Str(Seq<char>),
    Record { nominal_config: Seq<char>, fields: Seq<(Seq<char>, StaticModel)> },
    NullaryVariant { nominal_sum: Seq<char>, variant: Seq<char> },
}

/// Model of a value.
pub open spec fn static_model(v: L3ValueV1) -> StaticModel
    decreases v, 0nat,
{
    match v {
        L3ValueV1::Int(n) => StaticModel::Int(n),
        L3ValueV1::Str(s) => StaticModel::Str(s@),
        L3ValueV1::Record { nominal_config, fields } => StaticModel::Record {
            nominal_config: nominal_config@,
            fields: static_fields_prefix(fields@, fields@.len()),
        },
        L3ValueV1::NullaryVariant { nominal_sum, variant } => StaticModel::NullaryVariant {
            nominal_sum: nominal_sum@,
            variant: variant@,
        },
    }
}

/// Models of the first `n` named values of `s`.
pub open spec fn static_fields_prefix(s: Seq<(String, L3ValueV1)>, n: nat) -> Seq<(Seq<char>, StaticModel)>
    decreases s, n,
{
    if n == 0 || n > s.len() {
        Seq::empty()
    } else {
        static_fields_prefix(s, (n - 1) as nat).push((s[n - 1].0@, static_model(s[n - 1].1)))
    }
}

impl View for L3ValueV1 {
    type V = StaticModel;

    open spec fn view(&self) -> StaticModel {
        static_model(*self)
    }
}

pub proof fn lemma_static_fields_prefix(s: Seq<(String, L3ValueV1)>, n: nat)
    requires
        n <= s.len(),
    ensures
        static_fields_prefix(s, n).len() == n,
        forall|i: int| 0 <= i < n ==> #[trigger] static_fields_prefix(s, n)[i] == (s[i].0@, s[i].1@),
    decreases n,
{
    if n > 0 {
        lemma_static_fields_prefix(s, (n - 1) as nat);
    }
}

impl L3ValueV1 {
    /// A copy of this value.
    pub fn duplicate(&self) -> (r: L3ValueV1)
        ensures
            r@ == self@,
        decreases self,
    {
        match self {
            L3ValueV1::Int(n) => L3ValueV1::Int(*n),
            L3ValueV1::Str(s) => L3ValueV1::Str(s.clone()),
            L3ValueV1::NullaryVariant { nominal_sum, variant } => L3ValueV1::NullaryVariant {
                nominal_sum: nominal_sum.clone(),
                variant: variant.clone(),
            },
            L3ValueV1::Record { nominal_config, fields } => {
                let mut out: Vec<(String, L3ValueV1)> = Vec::new();
                let mut i: usize = 0;
                while i < fields.len()
                    invariant
                        self is Record && self->Record_fields == *fields,
                        i <= fields@.len(),
                        out@.len() == i,
                        forall|j: int|
                            0 <= j < i ==> #[trigger] out@[j].0@ == fields@[j].0@ && out@[j].1@ == fields@[j].1@,
                    decreases fields@.len() - i,
                {
                    proof {
                        assert(decreases_to!(*self => self->Record_fields));
                        assert(decreases_to!(self->Record_fields => self->Record_fields@));
                        assert(decreases_to!(self->Record_fields@ => self->Record_fields@[i as int]));
                        assert(decreases_to!(self->Record_fields@[i as int] => self->Record_fields@[i as int].1));
                    }
                    out.push((fields[i].0.clone(), fields[i].1.duplicate()));
                    i = i + 1;
                }
                let r = L3ValueV1::Record { nominal_config: nominal_config.clone(), fields: out };
                proof {
                    lemma_static_fields_prefix(out@, out@.len());
                    lemma_static_fields_prefix(fields@, fields@.len());
                    assert(static_fields_prefix(out@, out@.len()) =~= static_fields_prefix(fields@, fields@.len()));
                }
                r
            },
        }
    }
}

impl Clone for L3ValueV1 {
    fn clone(&self) -> (r: Self)
        ensures
            r@ == self@,
    {
        self.duplicate()
    }
}

/// The type of a value: its primitive, or the config a record or variant
/// belongs to.
pub open spec fn value_type_of(v: L3ValueV1) -> L3TypeRef {
    match v {
        L3ValueV1::Int(_) => L3TypeRef::Int,
        L3ValueV1::Str(_) => L3TypeRef::Str,
        L3ValueV1::Record { nominal_config, .. } => L3TypeRef::Config(nominal_config),
        L3ValueV1::NullaryVariant { nominal_sum, .. } => L3TypeRef::Config(nominal_sum),
    }
}

/// The type a closed value has.
pub fn infer_value_type(v: &L3ValueV1) -> (t: L3TypeRef)
    ensures
        t == value_type_of(*v),
{
    match v {
        L3ValueV1::Int(_) => L3TypeRef::Int,
        L3ValueV1::Str(_) => L3TypeRef::Str,
        L3ValueV1::Record { nominal_config, .. } => L3TypeRef::Config(nominal_config.clone()),
        L3ValueV1::NullaryVariant { nominal_sum, .. } => L3TypeRef::Config(nominal_sum.clone()),
    }
}

/// The fields of a record value.
pub open spec fn value_fields(v: L3ValueV1) -> Seq<(String, L3ValueV1)> {
    match v {
        L3ValueV1::Record { fields, .. } => fields@,
        _ => Seq::empty(),
    }
}

/// Number of nodes of a value tree: one per constructor, scalar or record.
pub open spec fn value_nodes(v: L3ValueV1) -> nat
    decreases v, 1nat, 0nat,
{
    match v {
        L3ValueV1::Record { .. } => 1 + fields_nodes(v, 0),
        _ => 1,
    }
}

/// Nodes of the field values of `parent` from index `i` on.
pub open spec fn fields_nodes(parent: L3ValueV1, i: nat) -> nat
    decreases parent, 0nat, value_fields(parent).len() - i,
{
    if i >= value_fields(parent).len() {
        0
    } else {
        value_nodes(value_fields(parent)[i as int].1) + fields_nodes(parent, i + 1)
    }
}

/// Bytes of the string payloads of a value tree.
pub open spec fn value_bytes(v: L3ValueV1) -> nat
    decreases v, 1nat, 0nat,
{
    match v {
        L3ValueV1::Str(s) => byte_len(s@) as nat,
        L3ValueV1::Record { .. } => fields_bytes(v, 0),
        _ => 0,
    }
}

/// Bytes of the field values of `parent` from index `i` on.
pub open spec fn fields_bytes(parent: L3ValueV1, i: nat) -> nat
    decreases parent, 0nat, value_fields(parent).len() - i,
{
    if i >= value_fields(parent).len() {
        0
    } else {
        value_bytes(value_fields(parent)[i as int].1) + fields_bytes(parent, i + 1)
    }
}

/// Depth of a value tree; the root has depth one.
pub open spec fn value_depth(v: L3ValueV1) -> nat
    decreases v, 1nat, 0nat,
{
    match v {
        L3ValueV1::Record { .. } => 1 + fields_depth(v, 0),
        _ => 1,
    }
}

/// Largest depth among the field values of `parent` from index `i` on, or
/// zero when there are none.
pub open spec fn fields_depth(parent: L3ValueV1, i: nat) -> nat
    decreases parent, 0nat, value_fields(parent).len() - i,
{
    if i >= value_fields(parent).len() {
        0
    } else {
        let d = value_depth(value_fields(parent)[i as int].1);
        let rest = fields_depth(parent, i + 1);
        if d > rest {
            d
        } else {
            rest
        }
    }
}

/// `x`, or `u64::MAX` when it is larger.
pub open spec fn sat64(x: int) -> u64 {
    if x > u64::MAX {
        u64::MAX
    } else {
        x as u64
    }
}

/// Node, byte and depth footprint of one closed value.
#[derive(Clone, Copy, Debug, PartialEq, Eq, Structural)]
pub struct ValueMetrics {
    pub nodes: u64,
    pub bytes: u64,
    pub depth: u64,
}

/// The footprint of `v`: its node and byte counts and its depth, each
/// saturating at `u64::MAX`.
pub fn value_metrics(v: &L3ValueV1) -> (m: ValueMetrics)
    ensures
        m.nodes == sat64(value_nodes(*v) as int),
        m.bytes == sat64(value_bytes(*v) as int),
        m.depth == sat64(value_depth(*v) as int),
    decreases *v,
{
    match v {
        L3ValueV1::Int(_) => ValueMetrics { nodes: 1, bytes: 0, depth: 1 },
        L3ValueV1::Str(s) => {
            let n = text_len(s.as_str());
            ValueMetrics { nodes: 1, bytes: n as u64, depth: 1 }
        },
        L3ValueV1::NullaryVariant { .. } => ValueMetrics { nodes: 1, bytes: 0, depth: 1 },
        L3ValueV1::Record { fields, .. } => {
            let mut nodes: u64 = 1;
            let mut bytes: u64 = 0;
            let mut max_child_depth: u64 = 0;
            let mut i: usize = 0;
            while i < fields.len()
                invariant
                    i <= fields@.len(),
                    value_fields(*v) == fields@,
                    value_depth(*v) == 1 + fields_depth(*v, 0),
                    value_nodes(*v) == 1 + fields_nodes(*v, 0),
                    value_bytes(*v) == fields_bytes(*v, 0),
                    fields_nodes(*v, i as nat) <= fields_nodes(*v, 0),
                    fields_bytes(*v, i as nat) <= fields_bytes(*v, 0),
                    nodes == sat64(1 + fields_nodes(*v, 0) - fields_nodes(*v, i as nat)),
                    bytes == sat64(fields_bytes(*v, 0) - fields_bytes(*v, i as nat)),
                    sat64(fields_depth(*v, 0) as int) == if max_child_depth > sat64(fields_depth(*v, i as nat) as int) {
                        max_child_depth
                    } else {
                        sat64(fields_depth(*v, i as nat) as int)
                    },
                decreases fields@.len() - i,
            {
                proof {
                    assert(decreases_to!(*v => (*v)->Record_fields));
                    assert(decreases_to!((*v)->Record_fields => (*v)->Record_fields@));
                    assert(decreases_to!((*v)->Record_fields@ => (*v)->Record_fields@[i as int]));
                    assert(decreases_to!((*v)->Record_fields@[i as int] => (*v)->Record_fields@[i as int].1));
                    assert(value_depth(fields@[i as int].1) <= fields_depth(*v, i as nat));
                }
                let m = value_metrics(&fields[i].1);
                nodes = nodes.saturating_add(m.nodes);
                bytes = bytes.saturating_add(m.bytes);
                if m.depth > max_child_depth {
                    max_child_depth = m.depth;
                }
                proof {
                    assert(fields_nodes(*v, i as nat) == value_nodes(fields@[i as int].1) + fields_nodes(*v, (i + 1) as nat));
                    assert(fields_bytes(*v, i as nat) == value_bytes(fields@[i as int].1) + fields_bytes(*v, (i + 1) as nat));
                }
                i = i + 1;
            }
            ValueMetrics { nodes, bytes, depth: max_child_depth.saturating_add(1) }
        },
    }
}

/// The running node and byte totals of a plan's values against its limits.
#[derive(Clone, Copy, Debug, PartialEq, Eq, Structural)]
pub struct ValueBudget {
    pub limits: PlanLimitsV1,
    pub total_nodes: u64,
    pub total_bytes: u64,
}

/// The budget after charging `m`, and whether a limit was exceeded: the
/// depth first, then the node total, then the byte total; the totals grow,
/// saturating, up to the first limit exceeded.
pub open spec fn charge_spec(b: ValueBudget, m: ValueMetrics) -> (ValueBudget, Result<(), L3LowerError>) {
    if m.depth > b.limits.max_value_depth {
        (b, Err(L3LowerError::ValueDepthExceeded { limit: b.limits.max_value_depth, actual: m.depth }))
    } else {
        let nodes = sat64(b.total_nodes + m.nodes);
        if nodes > b.limits.max_total_value_nodes {
            (
                ValueBudget { total_nodes: nodes, ..b },
                Err(L3LowerError::ValueNodeLimitExceeded { limit: b.limits.max_total_value_nodes, actual: nodes }),
            )
        } else {
            let bytes = sat64(b.total_bytes + m.bytes);
            let nb = ValueBudget { total_nodes: nodes, total_bytes: bytes, ..b };
            if bytes > b.limits.max_total_value_bytes {
                (nb, Err(L3LowerError::ValueByteLimitExceeded { limit: b.limits.max_total_value_bytes, actual: bytes }))
            } else {
                (nb, Ok(()))
            }
        }
    }
}

impl ValueBudget {
    /// Charge the footprint of one value.
    pub fn charge(&mut self, m: ValueMetrics) -> (r: Result<(), L3LowerError>)
        ensures
            (*final(self), r) == charge_spec(*old(self), m),
    {
        if m.depth > self.limits.max_value_depth {
            return Err(L3LowerError::ValueDepthExceeded { limit: self.limits.max_value_depth, actual: m.depth });
        }
        self.total_nodes = self.total_nodes.saturating_add(m.nodes);
        if self.total_nodes > self.limits.max_total_value_nodes {
            return Err(
                L3LowerError::ValueNodeLimitExceeded {
                    limit: self.limits.max_total_value_nodes,
                    actual: self.total_nodes,
                },
            );
        }
        self.total_bytes = self.total_bytes.saturating_add(m.bytes);
        if self.total_bytes > self.limits.max_total_value_bytes {
            return Err(
                L3LowerError::ValueByteLimitExceeded {
                    limit: self.limits.max_total_value_bytes,
                    actual: self.total_bytes,
                },
            );
        }
        Ok(())
    }
}

} // verus!
