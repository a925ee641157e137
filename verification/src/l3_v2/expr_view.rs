//! Expressions as mathematical values, and the deep copy that keeps them.
use vstd::prelude::*;

use crate::l3_v2::{opt_text, ArithOpV2, CmpOpV2, L3ExprV2, L3PatternV2};

verus! {

/// Model of a match pattern: the variant and the binders.
pub struct PatternModel {
    pub variant: Seq<char>,
    pub binders: Seq<Option<Seq<char>>>,
}

/// Model of an expression, with strings as character sequences and
/// vectors as sequences.
pub enum ExprModel {
    Int(i64),
    Str(Seq<char>),
    Bool(bool),
    LetRef(Seq<char>),
    RuleFact(Seq<char>),
    NullaryVariant { nominal_sum: Seq<char>, variant: Seq<char> },
    Ctor { nominal_sum: Seq<char>, variant: Seq<char>, args: Seq<ExprModel> },
    Record { nominal_config: Seq<char>, fields: Seq<(Seq<char>, ExprModel)> },
    Field(Box<ExprModel>, Seq<char>),
    Arith(ArithOpV2, Box<ExprModel>, Box<ExprModel>),
    Cmp(CmpOpV2, Box<ExprModel>, Box<ExprModel>),
    Match { scrutinee: Box<ExprModel>, arms: Seq<(PatternModel, ExprModel)> },
    Call { func: Seq<char>, args: Seq<ExprModel> },
}

/// Model of a pattern.
pub open spec fn pattern_model(p: L3PatternV2) -> PatternModel {
    match p {
        L3PatternV2::Ctor { variant, binders } => PatternModel {
            variant: variant@,
            binders: binders@.map_values(|o: Option<String>| opt_text(o)),
        },
    }
}

/// Model of an expression.
pub open spec fn expr_model(e: L3ExprV2) -> ExprModel
    decreases e, 0nat,
{
    match e {
        L3ExprV2::Int(n) => ExprModel::Int(n),
        L3ExprV2::Str(s) => ExprModel::Str(s@),
        L3ExprV2::Bool(b) => ExprModel::Bool(b),
        L3ExprV2::LetRef(s) => ExprModel::LetRef(s@),
        L3ExprV2::RuleFact(s) => ExprModel::RuleFact(s@),
        L3ExprV2::NullaryVariant { nominal_sum, variant } => ExprModel::NullaryVariant {
            nominal_sum: nominal_sum@,
            variant: variant@,
        },
        L3ExprV2::Ctor { nominal_sum, variant, args } => ExprModel::Ctor {
            nominal_sum: nominal_sum@,
            variant: variant@,
            args: exprs_prefix(args@, args@.len()),
        },
        L3ExprV2::Record { nominal_config, fields } => ExprModel::Record {
            nominal_config: nominal_config@,
            fields: expr_fields_prefix(fields@, fields@.len()),
        },
        L3ExprV2::Field(base, name) => ExprModel::Field(Box::new(expr_model(*base)), name@),
        L3ExprV2::Arith(op, a, b) => ExprModel::Arith(op, Box::new(expr_model(*a)), Box::new(expr_model(*b))),
        L3ExprV2::Cmp(op, a, b) => ExprModel::Cmp(op, Box::new(expr_model(*a)), Box::new(expr_model(*b))),
        L3ExprV2::Match { scrutinee, arms } => ExprModel::Match {
            scrutinee: Box::new(expr_model(*scrutinee)),
            arms: arms_prefix(arms@, arms@.len()),
        },
        L3ExprV2::Call { func, args } => ExprModel::Call {
            func: func@,
            args: exprs_prefix(args@, args@.len()),
        },
    }
}

/// Models of the first `n` expressions of `s`.
pub open spec fn exprs_prefix(s: Seq<L3ExprV2>, n: nat) -> Seq<ExprModel>
    decreases s, n,
{
    if n == 0 || n > s.len() {
        Seq::empty()
    } else {
        exprs_prefix(s, (n - 1) as nat).push(expr_model(s[n - 1]))
    }
}

/// Models of the first `n` named expressions of `s`.
pub open spec fn expr_fields_prefix(s: Seq<(String, L3ExprV2)>, n: nat) -> Seq<(Seq<char>, ExprModel)>
    decreases s, n,
{
    if n == 0 || n > s.len() {
        Seq::empty()
    } else {
        expr_fields_prefix(s, (n - 1) as nat).push((s[n - 1].0@, expr_model(s[n - 1].1)))
    }
}

/// Models of the first `n` match arms of `s`.
pub open spec fn arms_prefix(s: Seq<(L3PatternV2, L3ExprV2)>, n: nat) -> Seq<(PatternModel, ExprModel)>
    decreases s, n,
{
    if n == 0 || n > s.len() {
        Seq::empty()
    } else {
        arms_prefix(s, (n - 1) as nat).push((pattern_model(s[n - 1].0), expr_model(s[n - 1].1)))
    }
}

impl View for L3ExprV2 {
    type V = ExprModel;

    open spec fn view(&self) -> ExprModel {
        expr_model(*self)
    }
}

pub proof fn lemma_exprs_prefix(s: Seq<L3ExprV2>, n: nat)
    requires
        n <= s.len(),
    ensures
        exprs_prefix(s, n).len() == n,
        forall|i: int| 0 <= i < n ==> #[trigger] exprs_prefix(s, n)[i] == s[i]@,
    decreases n,
{
    if n > 0 {
        lemma_exprs_prefix(s, (n - 1) as nat);
    }
}

pub proof fn lemma_expr_fields_prefix(s: Seq<(String, L3ExprV2)>, n: nat)
    requires
        n <= s.len(),
    ensures
        expr_fields_prefix(s, n).len() == n,
        forall|i: int| 0 <= i < n ==> #[trigger] expr_fields_prefix(s, n)[i] == (s[i].0@, s[i].1@),
    decreases n,
{
    if n > 0 {
        lemma_expr_fields_prefix(s, (n - 1) as nat);
    }
}

pub proof fn lemma_arms_prefix(s: Seq<(L3PatternV2, L3ExprV2)>, n: nat)
    requires
        n <= s.len(),
    ensures
        arms_prefix(s, n).len() == n,
        forall|i: int| 0 <= i < n ==> #[trigger] arms_prefix(s, n)[i] == (pattern_model(s[i].0), s[i].1@),
    decreases n,
{
    if n > 0 {
        lemma_arms_prefix(s, (n - 1) as nat);
    }
}

impl L3PatternV2 {
    /// A copy of this pattern.
    pub fn copy_pattern(&self) -> (r: L3PatternV2)
        ensures
            pattern_model(r) == pattern_model(*self),
    {
        match self {
            L3PatternV2::Ctor { variant, binders } => {
                let mut out: Vec<Option<String>> = Vec::new();
                let mut i: usize = 0;
                while i < binders.len()
                    invariant
                        i <= binders@.len(),
                        out@.len() == i,
                        forall|j: int| 0 <= j < i ==> opt_text(#[trigger] out@[j]) == opt_text(binders@[j]),
                    decreases binders@.len() - i,
                {
                    let b = match &binders[i] {
                        Some(s) => Some(s.clone()),
                        None => None,
                    };
                    out.push(b);
                    i = i + 1;
                }
                let r = L3PatternV2::Ctor { variant: variant.clone(), binders: out };
                proof {
                    assert(out@.map_values(|o: Option<String>| opt_text(o)) =~= binders@.map_values(
                        |o: Option<String>| opt_text(o),
                    ));
                }
                r
            },
        }
    }
}

impl L3ExprV2 {
    /// A deep copy of this expression.
    pub fn copy_expr(&self) -> (r: L3ExprV2)
        ensures
            r@ == self@,
        decreases self,
    {
        match self {
            L3ExprV2::Int(n) => L3ExprV2::Int(*n),
            L3ExprV2::Str(s) => L3ExprV2::Str(s.clone()),
            L3ExprV2::Bool(b) => L3ExprV2::Bool(*b),
            L3ExprV2::LetRef(s) => L3ExprV2::LetRef(s.clone()),
            L3ExprV2::RuleFact(s) => L3ExprV2::RuleFact(s.clone()),
            L3ExprV2::NullaryVariant { nominal_sum, variant } => L3ExprV2::NullaryVariant {
                nominal_sum: nominal_sum.clone(),
                variant: variant.clone(),
            },
            L3ExprV2::Ctor { nominal_sum, variant, args } => {
                let out = copy_exprs(self, args);
                let r = L3ExprV2::Ctor { nominal_sum: nominal_sum.clone(), variant: variant.clone(), args: out };
                proof {
                    lemma_exprs_prefix(out@, out@.len());
                    lemma_exprs_prefix(args@, args@.len());
                    assert(exprs_prefix(out@, out@.len()) =~= exprs_prefix(args@, args@.len()));
                }
                r
            },
            L3ExprV2::Record { nominal_config, fields } => {
                let mut out: Vec<(String, L3ExprV2)> = Vec::new();
                let mut i: usize = 0;
                while i < fields.len()
                    invariant
                        self is Record && self->Record_fields == *fields,
                        i <= fields@.len(),
                        out@.len() == i,
                        forall|j: int|
                            0 <= j < i ==> #[trigger] out@[j].0@ == fields@[j].0@ && out@[j].1@ == fields@[j].1@,
                    decreases fields@.len() - i,
                {
                    proof {
                        assert(decreases_to!(*self => self->Record_fields));
                        assert(decreases_to!(self->Record_fields => self->Record_fields@));
                        assert(decreases_to!(self->Record_fields@ => self->Record_fields@[i as int]));
                        assert(decreases_to!(self->Record_fields@[i as int] => self->Record_fields@[i as int].1));
                    }
                    out.push((fields[i].0.clone(), fields[i].1.copy_expr()));
                    i = i + 1;
                }
                let r = L3ExprV2::Record { nominal_config: nominal_config.clone(), fields: out };
                proof {
                    lemma_expr_fields_prefix(out@, out@.len());
                    lemma_expr_fields_prefix(fields@, fields@.len());
                    assert(expr_fields_prefix(out@, out@.len()) =~= expr_fields_prefix(fields@, fields@.len()));
                }
                r
            },
            L3ExprV2::Field(base, name) => L3ExprV2::Field(Box::new((**base).copy_expr()), name.clone()),
            L3ExprV2::Arith(op, a, b) => L3ExprV2::Arith(
                *op,
                Box::new((**a).copy_expr()),
                Box::new((**b).copy_expr()),
            ),
            L3ExprV2::Cmp(op, a, b) => L3ExprV2::Cmp(*op, Box::new((**a).copy_expr()), Box::new((**b).copy_expr())),
            L3ExprV2::Match { scrutinee, arms } => {
                let mut out: Vec<(L3PatternV2, L3ExprV2)> = Vec::new();
                let mut i: usize = 0;
                while i < arms.len()
                    invariant
                        self is Match && self->Match_arms == *arms,
                        i <= arms@.len(),
                        out@.len() == i,
                        forall|j: int|
                            0 <= j < i ==> pattern_model(#[trigger] out@[j].0) == pattern_model(arms@[j].0)
                                && out@[j].1@ == arms@[j].1@,
                    decreases arms@.len() - i,
                {
                    proof {
                        assert(decreases_to!(*self => self->Match_arms));
                        assert(decreases_to!(self->Match_arms => self->Match_arms@));
                        assert(decreases_to!(self->Match_arms@ => self->Match_arms@[i as int]));
                        assert(decreases_to!(self->Match_arms@[i as int] => self->Match_arms@[i as int].1));
                    }
                    out.push((arms[i].0.copy_pattern(), arms[i].1.copy_expr()));
                    i = i + 1;
                }
                let r = L3ExprV2::Match { scrutinee: Box::new((**scrutinee).copy_expr()), arms: out };
                proof {
                    lemma_arms_prefix(out@, out@.len());
                    lemma_arms_prefix(arms@, arms@.len());
                    assert(arms_prefix(out@, out@.len()) =~= arms_prefix(arms@, arms@.len()));
                }
                r
            },
            L3ExprV2::Call { func, args } => {
                let out = copy_exprs(self, args);
                let r = L3ExprV2::Call { func: func.clone(), args: out };
                proof {
                    lemma_exprs_prefix(out@, out@.len());
                    lemma_exprs_prefix(args@, args@.len());
                    assert(exprs_prefix(out@, out@.len()) =~= exprs_prefix(args@, args@.len()));
                }
                r
            },
        }
    }
}

/// Copies of the argument expressions of a constructor or a call.
fn copy_exprs(parent: &L3ExprV2, args: &Vec<L3ExprV2>) -> (out: Vec<L3ExprV2>)
    requires
        parent is Ctor && parent->Ctor_args == *args || parent is Call && parent->Call_args == *args,
    ensures
        out@.len() == args@.len(),
        forall|j: int| 0 <= j < args@.len() ==> #[trigger] out@[j]@ == args@[j]@,
    decreases parent, 0nat,
{
    let mut out: Vec<L3ExprV2> = Vec::new();
    let mut i: usize = 0;
    while i < args.len()
        invariant
            parent is Ctor && parent->Ctor_args == *args || parent is Call && parent->Call_args == *args,
            i <= args@.len(),
            out@.len() == i,
            forall|j: int| 0 <= j < i ==> #[trigger] out@[j]@ == args@[j]@,
        decreases args@.len() - i,
    {
        proof {
            if parent is Ctor {
                assert(decreases_to!(*parent => parent->Ctor_args));
                assert(decreases_to!(parent->Ctor_args => parent->Ctor_args@));
                assert(decreases_to!(parent->Ctor_args@ => parent->Ctor_args@[i as int]));
            } else {
                assert(decreases_to!(*parent => parent->Call_args));
                assert(decreases_to!(parent->Call_args => parent->Call_args@));
                assert(decreases_to!(parent->Call_args@ => parent->Call_args@[i as int]));
            }
        }
        out.push(args[i].copy_expr());
        i = i + 1;
    }
    out
}

impl Clone for L3ExprV2 {
    fn clone(&self) -> (r: Self)
        ensures
            r@ == self@,
    {
        self.copy_expr()
    }
}

} // verus!
