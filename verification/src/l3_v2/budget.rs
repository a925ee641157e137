//! Execution bounds for function-enabled evaluations: steps, nesting depth,
//! call depth, and the node/byte size of values built along the way.
use vstd::prelude::*;

use crate::l3_v2::{
    fields_model, lemma_fields_model, lemma_values_model, FaultModel, EvalFault, L3ValueV2, ValueModel,
    MAX_CALL_DEPTH, MAX_CALL_STEPS, MAX_EVAL_RECURSION_DEPTH, MAX_EVAL_VALUE_BYTES,
    MAX_EVAL_VALUE_NODES, MAX_VALUE_DEPTH,
};
use crate::text::{byte_len, decimal, join2, join4, owned, usize_text};

verus! {

/// Execution bounds tracker for one evaluation.
#[derive(Clone, Copy, Debug)]
pub struct EvalBudget {
    pub steps: usize,
    pub max_steps: usize,
    pub recursion_depth: usize,
    pub max_recursion_depth: usize,
    pub call_depth: usize,
    pub max_call_depth: usize,
    pub allocated_nodes: usize,
    pub max_nodes: usize,
    pub allocated_bytes: usize,
    pub max_bytes: usize,
    pub max_value_depth: usize,
}

/// `a + b`, capped at `usize::MAX`.
pub open spec fn sat(x: int) -> int {
    if x > usize::MAX {
        usize::MAX as int
    } else {
        x
    }
}

impl EvalBudget {
    /// Counters within their limits, and limits small enough that the
    /// counters never overflow.
    pub open spec fn wf(&self) -> bool {
        &&& self.steps <= self.max_steps
        &&& self.max_steps < usize::MAX
        &&& self.recursion_depth <= self.max_recursion_depth
        &&& self.max_recursion_depth < usize::MAX
        &&& self.call_depth <= self.max_call_depth
        &&& self.max_call_depth < usize::MAX
        &&& self.allocated_nodes <= self.max_nodes
        &&& self.max_nodes < usize::MAX
        &&& self.allocated_bytes <= self.max_bytes
        &&& self.max_value_depth < usize::MAX
    }

    /// Same limits as `other`.
    pub open spec fn same_limits(&self, other: EvalBudget) -> bool {
        &&& self.max_steps == other.max_steps
        &&& self.max_recursion_depth == other.max_recursion_depth
        &&& self.max_call_depth == other.max_call_depth
        &&& self.max_nodes == other.max_nodes
        &&& self.max_bytes == other.max_bytes
        &&& self.max_value_depth == other.max_value_depth
    }

    /// The fresh budget every function-enabled evaluation starts from.
    pub open spec fn initial() -> EvalBudget {
        EvalBudget {
            steps: 0,
            max_steps: MAX_CALL_STEPS,
            recursion_depth: 0,
            max_recursion_depth: MAX_EVAL_RECURSION_DEPTH,
            call_depth: 0,
            max_call_depth: MAX_CALL_DEPTH,
            allocated_nodes: 0,
            max_nodes: MAX_EVAL_VALUE_NODES,
            allocated_bytes: 0,
            max_bytes: MAX_EVAL_VALUE_BYTES,
            max_value_depth: MAX_VALUE_DEPTH,
        }
    }

    /// The fresh budget.
    pub fn fresh() -> (b: EvalBudget)
        ensures
            b == EvalBudget::initial(),
            b.wf(),
    {
        EvalBudget {
            steps: 0,
            max_steps: MAX_CALL_STEPS,
            recursion_depth: 0,
            max_recursion_depth: MAX_EVAL_RECURSION_DEPTH,
            call_depth: 0,
            max_call_depth: MAX_CALL_DEPTH,
            allocated_nodes: 0,
            max_nodes: MAX_EVAL_VALUE_NODES,
            allocated_bytes: 0,
            max_bytes: MAX_EVAL_VALUE_BYTES,
            max_value_depth: MAX_VALUE_DEPTH,
        }
    }
}

impl Default for EvalBudget {
    fn default() -> (b: Self)
        ensures
            b == EvalBudget::initial(),
    {
        EvalBudget::fresh()
    }
}

/// The fault for an exhausted resource.
pub open spec fn exhausted(limit: usize, detail: Seq<char>) -> FaultModel {
    FaultModel::ResourceExhausted { limit, detail }
}

/// Outcome of counting one more evaluation step.
pub open spec fn tick_spec(b: EvalBudget) -> (Result<(), FaultModel>, EvalBudget) {
    let b2 = EvalBudget { steps: (b.steps + 1) as usize, ..b };
    if b.steps + 1 > b.max_steps {
        (Err(exhausted(b.max_steps, "evaluation step limit exceeded"@)), b2)
    } else {
        (Ok(()), b2)
    }
}

/// Outcome of reserving `nodes` value nodes and `bytes` bytes.
pub open spec fn allocation_spec(b: EvalBudget, nodes: usize, bytes: usize) -> (
    Result<(), FaultModel>,
    EvalBudget,
) {
    if nodes > b.max_nodes - b.allocated_nodes {
        (Err(exhausted(b.max_nodes, "value node budget exhausted"@)), b)
    } else if bytes > b.max_bytes - b.allocated_bytes {
        (Err(exhausted(b.max_bytes, "value byte budget exhausted"@)), b)
    } else {
        (
            Ok(()),
            EvalBudget {
                allocated_nodes: (b.allocated_nodes + nodes) as usize,
                allocated_bytes: (b.allocated_bytes + bytes) as usize,
                ..b
            },
        )
    }
}

/// Number of nodes in a value model.
pub open spec fn vsize(v: ValueModel) -> nat
    decreases v, 1nat, 0nat,
{
    match v {
        ValueModel::Ctor { args, .. } => 1 + args_size(v, args.len()),
        ValueModel::Record { fields, .. } => 1 + fields_size(v, fields.len()),
        _ => 1,
    }
}

/// Total size of the first `n` payloads of constructor `v`.
pub open spec fn args_size(v: ValueModel, n: nat) -> nat
    decreases v, 0nat, n,
{
    if v is Ctor && 0 < n <= v->Ctor_args.len() {
        args_size(v, (n - 1) as nat) + vsize(v->Ctor_args[n - 1])
    } else {
        0
    }
}

/// Total size of the first `n` field values of record `v`.
pub open spec fn fields_size(v: ValueModel, n: nat) -> nat
    decreases v, 0nat, n,
{
    if v is Record && 0 < n <= v->Record_fields.len() {
        fields_size(v, (n - 1) as nat) + vsize(v->Record_fields[n - 1].1)
    } else {
        0
    }
}

/// Total size of the values on a walk stack.
pub open spec fn weight(stack: Seq<(ValueModel, int)>) -> nat
    decreases stack.len(),
{
    if stack.len() == 0 {
        0
    } else {
        weight(stack.drop_last()) + vsize(stack.last().0)
    }
}

/// Children of a node, each paired with depth `d`, in payload/field order.
pub open spec fn children(v: ValueModel, d: int) -> Seq<(ValueModel, int)> {
    match v {
        ValueModel::Ctor { args, .. } => Seq::new(args.len(), |i: int| (args[i], d)),
        ValueModel::Record { fields, .. } => Seq::new(fields.len(), |i: int| (fields[i].1, d)),
        _ => Seq::empty(),
    }
}

/// Sum of the byte lengths of the field names.
pub open spec fn names_bytes(fields: Seq<(Seq<char>, ValueModel)>, n: nat) -> int
    decreases n,
{
    if n == 0 || n > fields.len() {
        0
    } else {
        names_bytes(fields, (n - 1) as nat) + byte_len(fields[n - 1].0)
    }
}

/// Bytes charged for one node.
pub open spec fn node_bytes(v: ValueModel) -> int {
    match v {
        ValueModel::Int(_) => 8,
        ValueModel::Bool(_) => 8,
        ValueModel::Str(s) => 8 + byte_len(s),
        ValueModel::Ctor { nominal_sum, variant, .. } => 16 + byte_len(nominal_sum) + byte_len(
            variant,
        ),
        ValueModel::Record { nominal_config, fields } => 16 + byte_len(nominal_config)
            + names_bytes(fields, fields.len()),
    }
}

pub proof fn lemma_weight_concat(a: Seq<(ValueModel, int)>, b: Seq<(ValueModel, int)>)
    ensures
        weight(a + b) == weight(a) + weight(b),
    decreases b.len(),
{
    if b.len() > 0 {
        assert((a + b).drop_last() =~= a + b.drop_last());
        lemma_weight_concat(a, b.drop_last());
    } else {
        assert(a + b =~= a);
    }
}

proof fn lemma_args_weight(v: ValueModel, d: int, n: nat)
    requires
        v is Ctor,
        n <= v->Ctor_args.len(),
    ensures
        weight(children(v, d).take(n as int)) == args_size(v, n),
    decreases n,
{
    if n > 0 {
        lemma_args_weight(v, d, (n - 1) as nat);
        assert(children(v, d).take(n as int).drop_last() =~= children(v, d).take(n - 1));
    } else {
        assert(children(v, d).take(0) =~= Seq::<(ValueModel, int)>::empty());
    }
}

proof fn lemma_fields_weight(v: ValueModel, d: int, n: nat)
    requires
        v is Record,
        n <= v->Record_fields.len(),
    ensures
        weight(children(v, d).take(n as int)) == fields_size(v, n),
    decreases n,
{
    if n > 0 {
        lemma_fields_weight(v, d, (n - 1) as nat);
        assert(children(v, d).take(n as int).drop_last() =~= children(v, d).take(n - 1));
    } else {
        assert(children(v, d).take(0) =~= Seq::<(ValueModel, int)>::empty());
    }
}

pub proof fn lemma_children_weight(v: ValueModel, d: int)
    ensures
        weight(children(v, d)) + 1 == vsize(v),
{
    match v {
        ValueModel::Ctor { args, .. } => {
            lemma_args_weight(v, d, args.len());
            assert(children(v, d).take(args.len() as int) =~= children(v, d));
        },
        ValueModel::Record { fields, .. } => {
            lemma_fields_weight(v, d, fields.len());
            assert(children(v, d).take(fields.len() as int) =~= children(v, d));
        },
        _ => {},
    }
}

/// The nesting-depth fault text.
pub open spec fn depth_fault(b: EvalBudget, seen: int) -> FaultModel {
    exhausted(
        b.max_value_depth,
        "value nesting depth limit exceeded ("@ + decimal(seen as nat) + " > "@ + decimal(
            b.max_value_depth as nat,
        ) + ")"@,
    )
}

/// The node-count fault text.
pub open spec fn node_fault(b: EvalBudget, count: int) -> FaultModel {
    exhausted(
        b.max_nodes,
        "value node allocation limit exceeded ("@ + decimal((b.allocated_nodes + count) as nat)
            + " > "@ + decimal(b.max_nodes as nat) + ")"@,
    )
}

/// The byte-count fault text.
pub open spec fn byte_fault(b: EvalBudget, bytes: int) -> FaultModel {
    exhausted(
        b.max_bytes,
        "value byte allocation limit exceeded ("@ + decimal(sat(b.allocated_bytes + bytes) as nat)
            + " > "@ + decimal(b.max_bytes as nat) + ")"@,
    )
}

/// The walk that sizes a value before it is copied: nodes are popped from
/// the end of `stack`, and each node's children are pushed in order one
/// level deeper. The first limit crossed, in visiting order, is reported.
pub open spec fn walk(
    b: EvalBudget,
    stack: Seq<(ValueModel, int)>,
    count: int,
    bytes: int,
    maxd: int,
) -> Result<(int, int), FaultModel>
    decreases weight(stack),
{
    if stack.len() == 0 {
        Ok((count, bytes))
    } else {
        let node = stack.last().0;
        let depth = stack.last().1;
        let maxd2 = if depth > maxd {
            depth
        } else {
            maxd
        };
        if maxd2 > b.max_value_depth {
            Err(depth_fault(b, maxd2))
        } else if b.allocated_nodes + count + 1 > b.max_nodes {
            Err(node_fault(b, count + 1))
        } else {
            let bytes2 = sat(bytes + node_bytes(node));
            if b.allocated_bytes + bytes2 > b.max_bytes {
                Err(byte_fault(b, bytes2))
            } else {
                proof {
                    lemma_children_weight(node, depth + 1);
                    lemma_weight_concat(stack.drop_last(), children(node, depth + 1));
                }
                walk(
                    b,
                    stack.drop_last() + children(node, depth + 1),
                    count + 1,
                    bytes2,
                    maxd2,
                )
            }
        }
    }
}

/// The only fault the sizing walk reports is an exhausted resource.
pub proof fn lemma_walk_exhausts(b: EvalBudget, stack: Seq<(ValueModel, int)>, count: int, bytes: int, maxd: int)
    ensures
        walk(b, stack, count, bytes, maxd) matches Err(f) ==> f is ResourceExhausted,
    decreases weight(stack),
{
    if stack.len() > 0 {
        let node = stack.last().0;
        let depth = stack.last().1;
        let maxd2 = if depth > maxd {
            depth
        } else {
            maxd
        };
        let bytes2 = sat(bytes + node_bytes(node));
        if !(maxd2 > b.max_value_depth) && !(b.allocated_nodes + count + 1 > b.max_nodes)
            && !(b.allocated_bytes + bytes2 > b.max_bytes) {
            lemma_children_weight(node, depth + 1);
            lemma_weight_concat(stack.drop_last(), children(node, depth + 1));
            lemma_walk_exhausts(b, stack.drop_last() + children(node, depth + 1), count + 1, bytes2, maxd2);
        }
    }
}

/// Outcome of charging for a copy of `v` whose root sits at `depth`.
pub open spec fn value_charge_spec(b: EvalBudget, v: ValueModel, depth: int) -> (
    Result<(), FaultModel>,
    EvalBudget,
) {
    match walk(b, seq![(v, depth)], 0, 0, 1) {
        Err(f) => (Err(f), b),
        Ok((c, by)) => (
            Ok(()),
            EvalBudget {
                allocated_nodes: (b.allocated_nodes + c) as usize,
                allocated_bytes: (b.allocated_bytes + by) as usize,
                ..b
            },
        ),
    }
}

/// Result of a budget operation, with the fault as a model.
pub open spec fn unit_model(r: Result<(), EvalFault>) -> Result<(), FaultModel> {
    match r {
        Ok(()) => Ok(()),
        Err(f) => Err(f@),
    }
}

impl EvalBudget {
    /// Count one more evaluation step.
    pub fn tick_step(&mut self) -> (r: Result<(), EvalFault>)
        requires
            old(self).steps < usize::MAX,
        ensures
            (unit_model(r), *final(self)) == tick_spec(*old(self)),
    {
        self.steps = self.steps + 1;
        if self.steps > self.max_steps {
            return Err(EvalFault::ResourceExhausted {
                limit: self.max_steps,
                detail: owned("evaluation step limit exceeded"),
            });
        }
        Ok(())
    }

    /// Reserve `nodes` value nodes and `bytes` bytes.
    pub(crate) fn charge_allocation(&mut self, nodes: usize, bytes: usize) -> (r: Result<(), EvalFault>)
        requires
            old(self).wf(),
        ensures
            (unit_model(r), *final(self)) == allocation_spec(*old(self), nodes, bytes),
            final(self).wf(),
    {
        if nodes > self.max_nodes - self.allocated_nodes {
            return Err(EvalFault::ResourceExhausted {
                limit: self.max_nodes,
                detail: owned("value node budget exhausted"),
            });
        }
        if bytes > self.max_bytes - self.allocated_bytes {
            return Err(EvalFault::ResourceExhausted {
                limit: self.max_bytes,
                detail: owned("value byte budget exhausted"),
            });
        }
        self.allocated_nodes = self.allocated_nodes + nodes;
        self.allocated_bytes = self.allocated_bytes + bytes;
        Ok(())
    }

    /// Charge for a copy of `val` at nesting depth one.
    pub(crate) fn charge_clone(&mut self, val: &L3ValueV2) -> (r: Result<(), EvalFault>)
        requires
            old(self).wf(),
        ensures
            (unit_model(r), *final(self)) == value_charge_spec(*old(self), val@, 1),
            final(self).wf(),
    {
        self.charge_value(val, 1)
    }

    /// Walk `val` (rooted at `depth`) and charge its nodes and bytes, failing
    /// on the first limit crossed.
    #[verifier::loop_isolation(false)]
    pub(crate) fn charge_value(&mut self, val: &L3ValueV2, depth: usize) -> (r: Result<(), EvalFault>)
        requires
            old(self).wf(),
            1 <= depth <= 2,
        ensures
            (unit_model(r), *final(self)) == value_charge_spec(*old(self), val@, depth as int),
            final(self).wf(),
    {
        let ghost b0 = *self;
        let mut stack: Vec<(&L3ValueV2, usize)> = Vec::new();
        stack.push((val, depth));
        let mut count: usize = 0;
        let mut bytes: usize = 0;
        let mut max_depth_seen: usize = 1;
        let ghost start = seq![(val@, depth as int)];
        proof {
            assert(stack_model(stack@) =~= start);
        }
        while stack.len() > 0
            invariant
                *self == b0,
                b0.wf(),
                0 <= count,
                b0.allocated_nodes + count <= b0.max_nodes,
                b0.allocated_bytes + bytes <= b0.max_bytes,
                1 <= max_depth_seen,
                max_depth_seen <= b0.max_value_depth || (count == 0 && max_depth_seen == 1),
                forall|i: int| 0 <= i < stack@.len() ==> 1 <= #[trigger] stack@[i].1 <= max_depth_seen + 1,
                walk(b0, start, 0, 0, 1) == walk(
                    b0,
                    stack_model(stack@),
                    count as int,
                    bytes as int,
                    max_depth_seen as int,
                ),
            decreases weight(stack_model(stack@)),
        {
            let ghost sm = stack_model(stack@);
            let top = stack.pop();
            let (node, d) = match top {
                Some(t) => t,
                None => {
                    return Ok(());
                },
            };
            let ghost pre = stack@;
            proof {
                assert(stack_model(pre) =~= sm.drop_last());
                assert(sm.last() == (node@, d as int));
            }
            if d > max_depth_seen {
                max_depth_seen = d;
            }
            if max_depth_seen > self.max_value_depth {
                let seen = usize_text(max_depth_seen);
                let lim = usize_text(self.max_value_depth);
                let a = join4("value nesting depth limit exceeded (", seen.as_str(), " > ", lim.as_str());
                return Err(EvalFault::ResourceExhausted {
                    limit: self.max_value_depth,
                    detail: join2(a.as_str(), ")"),
                });
            }
            count = count + 1;
            if count > self.max_nodes - self.allocated_nodes {
                let now = usize_text(self.allocated_nodes + count);
                let lim = usize_text(self.max_nodes);
                let a = join4("value node allocation limit exceeded (", now.as_str(), " > ", lim.as_str());
                return Err(EvalFault::ResourceExhausted {
                    limit: self.max_nodes,
                    detail: join2(a.as_str(), ")"),
                });
            }
            let ghost bytes_before = bytes as int;
            match node {
                L3ValueV2::Int(_) | L3ValueV2::Bool(_) => {
                    bytes = bytes.saturating_add(8);
                    proof {
                        assert(children(node@, d + 1) =~= Seq::<(ValueModel, int)>::empty());
                        assert(stack_model(stack@) =~= stack_model(pre) + children(node@, d + 1));
                    }
                },
                L3ValueV2::Str(s) => {
                    bytes = bytes.saturating_add(8);
                    bytes = bytes.saturating_add(s.as_str().len());
                    proof {
                        lemma_sat_assoc(bytes_before + 8, byte_len(s@) as int);
                        assert(children(node@, d + 1) =~= Seq::<(ValueModel, int)>::empty());
                        assert(stack_model(stack@) =~= stack_model(pre) + children(node@, d + 1));
                    }
                },
                L3ValueV2::Ctor { args, nominal_sum, variant } => {
                    bytes = bytes.saturating_add(16);
                    bytes = bytes.saturating_add(nominal_sum.as_str().len());
                    bytes = bytes.saturating_add(variant.as_str().len());
                    proof {
                        lemma_sat_assoc(bytes_before + 16, byte_len(nominal_sum@) as int);
                        lemma_sat_assoc(bytes_before + 16 + byte_len(nominal_sum@), byte_len(variant@) as int);
                        lemma_values_model(args@);
                    }
                    let mut i: usize = 0;
                    while i < args.len()
                        invariant
                            i <= args@.len(),
                            stack@.len() == pre.len() + i,
                            stack_model(stack@) =~= stack_model(pre) + children(node@, d + 1).take(i as int),
                            forall|j: int| 0 <= j < stack@.len() ==> 1 <= #[trigger] stack@[j].1 <= max_depth_seen + 1,
                        decreases args@.len() - i,
                    {
                        let ghost before_push = stack@;
                        stack.push((&args[i], d + 1));
                        proof {
                            assert(stack_model(stack@) =~= stack_model(before_push).push((args@[i as int]@, d + 1)));
                            assert(node@->Ctor_args[i as int] == args@[i as int]@);
                            assert(children(node@, d + 1).take(i + 1) =~= children(node@, d + 1).take(i as int).push((args@[i as int]@, d + 1)));
                            assert(stack_model(stack@) =~= stack_model(pre) + children(node@, d + 1).take(i + 1));
                        }
                        i = i + 1;
                    }
                    proof {
                        assert(children(node@, d + 1).take(args@.len() as int) =~= children(node@, d + 1));
                    }
                },
                L3ValueV2::Record { fields, nominal_config } => {
                    bytes = bytes.saturating_add(16);
                    bytes = bytes.saturating_add(nominal_config.as_str().len());
                    proof {
                        lemma_sat_assoc(bytes_before + 16, byte_len(nominal_config@) as int);
                        lemma_fields_model(fields@);
                    }
                    let ghost fm = fields_model(fields@);
                    let mut i: usize = 0;
                    while i < fields.len()
                        invariant
                            i <= fields@.len(),
                            stack@.len() == pre.len() + i,
                            stack_model(stack@) =~= stack_model(pre) + children(node@, d + 1).take(i as int),
                            bytes as int == sat(bytes_before + 16 + byte_len(nominal_config@) + names_bytes(fm, i as nat)),
                            forall|j: int| 0 <= j < stack@.len() ==> 1 <= #[trigger] stack@[j].1 <= max_depth_seen + 1,
                        decreases fields@.len() - i,
                    {
                        let ghost bb = bytes as int;
                        bytes = bytes.saturating_add(fields[i].0.as_str().len());
                        let ghost before_push = stack@;
                        stack.push((&fields[i].1, d + 1));
                        proof {
                            assert(stack_model(stack@) =~= stack_model(before_push).push((fields@[i as int].1@, d + 1)));
                            assert(node@->Record_fields[i as int].1 == fields@[i as int].1@);
                            lemma_sat_assoc(bytes_before + 16 + byte_len(nominal_config@) + names_bytes(fm, i as nat), byte_len(fields@[i as int].0@) as int);
                            assert(fm[i as int].0 == fields@[i as int].0@);
                            assert(children(node@, d + 1).take(i + 1) =~= children(node@, d + 1).take(i as int).push((fields@[i as int].1@, d + 1)));
                            assert(stack_model(stack@) =~= stack_model(pre) + children(node@, d + 1).take(i + 1));
                        }
                        i = i + 1;
                    }
                    proof {
                        assert(children(node@, d + 1).take(fields@.len() as int) =~= children(node@, d + 1));
                    }
                },
            }
            proof {
                assert(bytes as int == sat(bytes_before + node_bytes(node@)));
                assert(stack_model(stack@) =~= sm.drop_last() + children(node@, d + 1));
                lemma_children_weight(node@, d + 1);
                lemma_weight_concat(sm.drop_last(), children(node@, d + 1));
            }
            if bytes > self.max_bytes - self.allocated_bytes {
                let now = usize_text(self.allocated_bytes.saturating_add(bytes));
                let lim = usize_text(self.max_bytes);
                let a = join4("value byte allocation limit exceeded (", now.as_str(), " > ", lim.as_str());
                return Err(EvalFault::ResourceExhausted {
                    limit: self.max_bytes,
                    detail: join2(a.as_str(), ")"),
                });
            }
        }
        self.allocated_nodes = self.allocated_nodes + count;
        self.allocated_bytes = self.allocated_bytes + bytes;
        Ok(())
    }
}

/// Models of the entries of a walk stack.
pub open spec fn stack_model(s: Seq<(&L3ValueV2, usize)>) -> Seq<(ValueModel, int)> {
    s.map_values(|p: (&L3ValueV2, usize)| (p.0@, p.1 as int))
}

proof fn lemma_sat_assoc(a: int, c: int)
    requires
        a >= 0,
        c >= 0,
    ensures
        sat(sat(a) + c) == sat(a + c),
{
}

} // verus!
