//! Checking a snapshot against the inputs a finite-decision plan declares:
//! every supplied input must be declared with the supplied value's type, and
//! for execution every declared input must be supplied.
use vstd::prelude::*;
use crate::l3_v2::value_type_text;
use crate::text::owned;

use crate::finite_decision::plan::{input_index, FiniteDecisionInput, FiniteDecisionPlan};
use crate::input::shards::InputSnapshot;
use crate::input::{scalar_type, ScalarModel};
use crate::keymap::assoc_get;
use crate::l3_v2::L3ValueType;

verus! {

/// Why a snapshot does not fit a plan's declarations.
#[derive(Clone, Debug, PartialEq, Eq)]
pub enum InputValidationError {
    UndeclaredInput { name: String },
    MissingInput { name: String, declared: L3ValueType },
    TypeMismatch { name: String, declared: L3ValueType, supplied: L3ValueType },
}

/// Model of a validation error.
pub enum ValidationFault {
    UndeclaredInput { name: Seq<char> },
    MissingInput { name: Seq<char>, declared: L3ValueType },
    TypeMismatch { name: Seq<char>, declared: L3ValueType, supplied: L3ValueType },
}

impl View for InputValidationError {
    type V = ValidationFault;

    open spec fn view(&self) -> ValidationFault {
        match self {
            InputValidationError::UndeclaredInput { name } => ValidationFault::UndeclaredInput { name: name@ },
            InputValidationError::MissingInput { name, declared } => ValidationFault::MissingInput {
                name: name@,
                declared: *declared,
            },
            InputValidationError::TypeMismatch { name, declared, supplied } => ValidationFault::TypeMismatch {
                name: name@,
                declared: *declared,
                supplied: *supplied,
            },
        }
    }
}

/// The outcome of checking supplied values, in ascending name order from
/// the `i`-th on, against the declared inputs: the first value that is not
/// declared, or whose type differs from the first declaration of its name,
/// is refused.
pub open spec fn declarations_fit(
    values: Seq<(Seq<char>, ScalarModel)>,
    inputs: Seq<FiniteDecisionInput>,
    i: nat,
) -> Result<(), ValidationFault>
    decreases values.len() - i,
{
    if i >= values.len() {
        Ok(())
    } else {
        let name = values[i as int].0;
        let supplied = scalar_type(values[i as int].1);
        match input_index(inputs, name) {
            None => Err(ValidationFault::UndeclaredInput { name }),
            Some(j) => if inputs[j].ty != supplied {
                Err(ValidationFault::TypeMismatch { name, declared: inputs[j].ty, supplied })
            } else {
                declarations_fit(values, inputs, i + 1)
            },
        }
    }
}

/// The outcome of checking that each declared input from the `i`-th on is
/// supplied: the first one missing is refused.
pub open spec fn declarations_met(
    values: Seq<(Seq<char>, ScalarModel)>,
    inputs: Seq<FiniteDecisionInput>,
    i: nat,
) -> Result<(), ValidationFault>
    decreases inputs.len() - i,
{
    if i >= inputs.len() {
        Ok(())
    } else if assoc_get(values, inputs[i as int].name@) is None {
        Err(ValidationFault::MissingInput { name: inputs[i as int].name@, declared: inputs[i as int].ty })
    } else {
        declarations_met(values, inputs, i + 1)
    }
}

/// Complete fulfilment: every supplied value fits, then every declared input
/// is supplied.
pub open spec fn declarations_complete(
    values: Seq<(Seq<char>, ScalarModel)>,
    inputs: Seq<FiniteDecisionInput>,
) -> Result<(), ValidationFault> {
    match declarations_fit(values, inputs, 0) {
        Err(f) => Err(f),
        Ok(()) => declarations_met(values, inputs, 0),
    }
}

/// `r` is the outcome `o` describes.
pub open spec fn validation_matches(r: Result<(), InputValidationError>, o: Result<(), ValidationFault>) -> bool {
    match o {
        Ok(()) => r is Ok,
        Err(f) => r matches Err(e) && e@ == f,
    }
}

/// The first declaration of a name is the one `input_index` names.
proof fn lemma_first_input(inputs: Seq<FiniteDecisionInput>, name: Seq<char>, i: int)
    requires
        0 <= i < inputs.len(),
        inputs[i].name@ == name,
        forall|j: int| 0 <= j < i ==> (#[trigger] inputs[j]).name@ != name,
    ensures
        input_index(inputs, name) == Some(i),
{
    assert(inputs[i].name@ == name);
    let k = choose|k: int| 0 <= k < inputs.len() && inputs[k].name@ == name && forall|j: int|
        0 <= j < k ==> (#[trigger] inputs[j]).name@ != name;
    if k < i {
        assert(inputs[k].name@ != name);
    }
    if k > i {
        assert(inputs[i].name@ != name);
    }
}

/// A copy of a value type.
pub fn copy_value_type(t: &L3ValueType) -> (r: L3ValueType)
    ensures
        r == *t,
{
    match t {
        L3ValueType::Int => L3ValueType::Int,
        L3ValueType::Str => L3ValueType::Str,
        L3ValueType::Bool => L3ValueType::Bool,
        L3ValueType::Sum(s) => L3ValueType::Sum(s.clone()),
        L3ValueType::Record(s) => L3ValueType::Record(s.clone()),
    }
}

/// Whether a declared type is the type of a supplied scalar.
fn same_scalar_type(declared: &L3ValueType, supplied: &L3ValueType) -> (r: bool)
    requires
        *supplied is Int || *supplied is Str || *supplied is Bool,
    ensures
        r == (*declared == *supplied),
{
    match (declared, supplied) {
        (L3ValueType::Int, L3ValueType::Int) => true,
        (L3ValueType::Str, L3ValueType::Str) => true,
        (L3ValueType::Bool, L3ValueType::Bool) => true,
        _ => false,
    }
}

impl InputSnapshot {
    /// Check that every supplied input is declared by `plan` with the
    /// supplied value's type; inputs may be left unsupplied.
    pub fn validate_against_declarations(&self, plan: &FiniteDecisionPlan) -> (r: Result<(), InputValidationError>)
        ensures
            validation_matches(r, declarations_fit(self@.values, plan.inputs@, 0)),
    {
        let values = self.values();
        let ghost vs = self@.values;
        let mut i: usize = 0;
        while i < values.len()
            invariant
                i <= vs.len(),
                vs == self@.values,
                crate::input::scalars_model(values.pairs()) == vs,
                declarations_fit(vs, plan.inputs@, i as nat) == declarations_fit(vs, plan.inputs@, 0),
            decreases vs.len() - i,
        {
            let name = values.key_at(i);
            let val = values.value_at(i);
            assert(vs[i as int] == (name@, val@));
            match plan.find_input(name.as_str()) {
                None => {
                    proof {
                        assert(input_index(plan.inputs@, name@) is None) by {
                            if exists|k: int| 0 <= k < plan.inputs@.len() && (#[trigger] plan.inputs@[k]).name@ == name@ {
                                let k = choose|k: int| 0 <= k < plan.inputs@.len() && (#[trigger] plan.inputs@[k]).name@ == name@;
                                assert(plan.inputs@[k].name@ != name@);
                            }
                        }
                    }
                    return Err(InputValidationError::UndeclaredInput { name: name.clone() });
                },
                Some(decl) => {
                    proof {
                        let j = choose|j: int|
                            0 <= j < plan.inputs@.len() && plan.inputs@[j] == *decl && decl.name@ == name@ && forall|k: int|
                                0 <= k < j ==> (#[trigger] plan.inputs@[k]).name@ != name@;
                        lemma_first_input(plan.inputs@, name@, j);
                    }
                    let supplied = val.value_type();
                    if !same_scalar_type(&decl.ty, &supplied) {
                        return Err(
                            InputValidationError::TypeMismatch {
                                name: name.clone(),
                                declared: copy_value_type(&decl.ty),
                                supplied,
                            },
                        );
                    }
                },
            }
            i = i + 1;
        }
        Ok(())
    }

    /// Check complete input fulfilment for execution: every supplied input
    /// fits its declaration, and every declared input is supplied.
    pub fn validate_completeness(&self, plan: &FiniteDecisionPlan) -> (r: Result<(), InputValidationError>)
        ensures
            validation_matches(r, declarations_complete(self@.values, plan.inputs@)),
    {
        match self.validate_against_declarations(plan) {
            Ok(()) => {},
            Err(e) => {
                return Err(e);
            },
        }
        let ghost vs = self@.values;
        let mut i: usize = 0;
        while i < plan.inputs.len()
            invariant
                i <= plan.inputs@.len(),
                vs == self@.values,
                declarations_fit(vs, plan.inputs@, 0) is Ok,
                declarations_met(vs, plan.inputs@, i as nat) == declarations_met(vs, plan.inputs@, 0),
            decreases plan.inputs@.len() - i,
        {
            let decl = &plan.inputs[i];
            match self.get(decl.name.as_str()) {
                None => {
                    return Err(
                        InputValidationError::MissingInput { name: decl.name.clone(), declared: copy_value_type(&decl.ty) },
                    );
                },
                Some(_) => {},
            }
            i = i + 1;
        }
        Ok(())
    }
}

/// Check that every supplied input is declared by `plan` with the supplied
/// value's type.
pub fn validate_against_declarations(snapshot: &InputSnapshot, plan: &FiniteDecisionPlan) -> (r: Result<(), InputValidationError>)
    ensures
        validation_matches(r, declarations_fit(snapshot@.values, plan.inputs@, 0)),
{
    snapshot.validate_against_declarations(plan)
}

/// Check complete input fulfilment for execution.
pub fn validate_completeness(snapshot: &InputSnapshot, plan: &FiniteDecisionPlan) -> (r: Result<(), InputValidationError>)
    ensures
        validation_matches(r, declarations_complete(snapshot@.values, plan.inputs@)),
{
    snapshot.validate_completeness(plan)
}

/// Supplied entry `e` fits the first declaration of its name.
pub open spec fn entry_fits(e: (Seq<char>, ScalarModel), inputs: Seq<FiniteDecisionInput>) -> bool {
    input_index(inputs, e.0) matches Some(j) && inputs[j].ty == scalar_type(e.1)
}

/// Some declaration has the name and the type of supplied entry `e`.
pub open spec fn declared_as(e: (Seq<char>, ScalarModel), inputs: Seq<FiniteDecisionInput>) -> bool {
    exists|j: int| 0 <= j < inputs.len() && (#[trigger] inputs[j]).name@ == e.0 && inputs[j].ty == scalar_type(e.1)
}

/// No two declarations share a name.
pub open spec fn distinct_inputs(inputs: Seq<FiniteDecisionInput>) -> bool {
    forall|a: int, b: int| 0 <= a < b < inputs.len() ==> (#[trigger] inputs[a]).name@ != (#[trigger] inputs[b]).name@
}

proof fn lemma_fit_from(values: Seq<(Seq<char>, ScalarModel)>, inputs: Seq<FiniteDecisionInput>, i: nat)
    requires
        i <= values.len(),
    ensures
        declarations_fit(values, inputs, i) is Ok <==> (forall|k: int|
            i <= k < values.len() ==> entry_fits(#[trigger] values[k], inputs)),
    decreases values.len() - i,
{
    if i < values.len() {
        lemma_fit_from(values, inputs, i + 1);
        if declarations_fit(values, inputs, i) is Ok {
            assert forall|k: int| i <= k < values.len() implies entry_fits(#[trigger] values[k], inputs) by {
                if k > i {
                    assert(i + 1 <= k);
                }
            }
        }
    }
}

proof fn lemma_met_from(values: Seq<(Seq<char>, ScalarModel)>, inputs: Seq<FiniteDecisionInput>, i: nat)
    requires
        i <= inputs.len(),
    ensures
        declarations_met(values, inputs, i) is Ok <==> (forall|k: int|
            i <= k < inputs.len() ==> assoc_get(values, (#[trigger] inputs[k]).name@) is Some),
    decreases inputs.len() - i,
{
    if i < inputs.len() {
        lemma_met_from(values, inputs, i + 1);
        if declarations_met(values, inputs, i) is Ok {
            assert forall|k: int| i <= k < inputs.len() implies assoc_get(values, (#[trigger] inputs[k]).name@) is Some by {
                if k > i {
                    assert(i + 1 <= k);
                }
            }
        }
    }
}

proof fn lemma_fits_declared(e: (Seq<char>, ScalarModel), inputs: Seq<FiniteDecisionInput>)
    requires
        distinct_inputs(inputs),
    ensures
        entry_fits(e, inputs) <==> declared_as(e, inputs),
{
    if declared_as(e, inputs) {
        let j = choose|j: int| 0 <= j < inputs.len() && (#[trigger] inputs[j]).name@ == e.0 && inputs[j].ty == scalar_type(e.1);
        assert forall|k: int| 0 <= k < j implies (#[trigger] inputs[k]).name@ != e.0 by {
            assert(inputs[k].name@ != inputs[j].name@);
        }
        let c = input_index(inputs, e.0)->0;
        if c != j {
            if c < j {
                assert(inputs[c].name@ != inputs[j].name@);
            } else {
                assert(inputs[j].name@ != inputs[c].name@);
            }
        }
    }
}

/// When the plan declares each input once, a snapshot fits the plan exactly
/// when every supplied value is declared under its name with its type, and
/// it is complete exactly when, besides, every declared input is supplied.
pub proof fn lemma_validation_characterized(values: Seq<(Seq<char>, ScalarModel)>, inputs: Seq<FiniteDecisionInput>)
    requires
        distinct_inputs(inputs),
    ensures
        declarations_fit(values, inputs, 0) is Ok <==> (forall|i: int|
            0 <= i < values.len() ==> declared_as(#[trigger] values[i], inputs)),
        declarations_complete(values, inputs) is Ok <==> ((forall|i: int|
            0 <= i < values.len() ==> declared_as(#[trigger] values[i], inputs)) && (forall|j: int|
            0 <= j < inputs.len() ==> assoc_get(values, (#[trigger] inputs[j]).name@) is Some)),
{
    lemma_fit_from(values, inputs, 0);
    lemma_met_from(values, inputs, 0);
    assert forall|i: int| 0 <= i < values.len() implies (entry_fits(#[trigger] values[i], inputs) <==> declared_as(
        values[i],
        inputs,
    )) by {
        lemma_fits_declared(values[i], inputs);
    }
}

/// The diagnostic text of a validation error.
pub open spec fn validation_error_text(e: InputValidationError) -> Seq<char> {
    match e {
        InputValidationError::UndeclaredInput { name } => "supplied input '"@ + name@ + "' is not declared in the program"@,
        InputValidationError::MissingInput { name, declared } => "declared input '"@ + name@ + "' of type "@ + value_type_text(declared) + " was not supplied"@,
        InputValidationError::TypeMismatch { name, declared, supplied } => "type mismatch for input '"@ + name@ + "': declared "@ + value_type_text(declared) + ", supplied "@ + value_type_text(supplied),
    }
}

impl InputValidationError {
    /// The diagnostic text of a validation error.
    pub fn to_display_string(&self) -> (s: String)
        ensures
            s@ == validation_error_text(*self),
    {
        match self {
            InputValidationError::UndeclaredInput { name } => {
                let mut s = owned("supplied input '");
                s.append(name.as_str());
                s.append("' is not declared in the program");
                s
            },
            InputValidationError::MissingInput { name, declared } => {
                let mut s = owned("declared input '");
                s.append(name.as_str());
                s.append("' of type ");
                let t2 = declared.to_display_string();
                s.append(t2.as_str());
                s.append(" was not supplied");
                s
            },
            InputValidationError::TypeMismatch { name, declared, supplied } => {
                let mut s = owned("type mismatch for input '");
                s.append(name.as_str());
                s.append("': declared ");
                let t2 = declared.to_display_string();
                s.append(t2.as_str());
                s.append(", supplied ");
                let t4 = supplied.to_display_string();
                s.append(t4.as_str());
                s
            },
        }
    }
}

} // verus!
