//! Validation of runtime values against closed schemas.
use vstd::prelude::*;

use crate::keymap::{assoc_index, lemma_assoc_index, KeyMap};
use crate::l3_v2::{
    lemma_fields_model, lemma_values_model, schema_type_name, L3Schema, L3SchemaBody,
    L3SchemaType, L3ValueV2, ValueModel,
};
use crate::text::{decimal, join2, join3, join4, join5, usize_text};

verus! {

/// Index of the first variant named `name`.
pub open spec fn variant_index(vs: Seq<(String, Vec<L3SchemaType>)>, name: Seq<char>) -> Option<int>
    decreases vs.len(),
{
    if vs.len() == 0 {
        None
    } else if vs[0].0@ == name {
        Some(0)
    } else {
        match variant_index(vs.drop_first(), name) {
            Some(i) => Some(i + 1),
            None => None,
        }
    }
}

proof fn lemma_variant_index(vs: Seq<(String, Vec<L3SchemaType>)>, name: Seq<char>)
    ensures
        variant_index(vs, name) matches Some(i) ==> 0 <= i < vs.len() && vs[i].0@ == name && (
        forall|j: int| 0 <= j < i ==> vs[j].0@ != name),
        variant_index(vs, name) is None ==> (forall|j: int| 0 <= j < vs.len() ==> vs[j].0@ != name),
    decreases vs.len(),
{
    if vs.len() > 0 {
        lemma_variant_index(vs.drop_first(), name);
        if vs[0].0@ != name {
            assert forall|j: int| 0 < j < vs.len() implies vs[j] == vs.drop_first()[j - 1] by {}
        }
    }
}

/// Result of a validation with the message as a character sequence.
pub open spec fn check_text(r: Result<(), String>) -> Result<(), Seq<char>> {
    match r {
        Ok(()) => Ok(()),
        Err(m) => Err(m@),
    }
}

/// The outcome of validating a value model against a schema type.
///
/// Primitive leaves must match exactly; a constructor must name the schema,
/// be a known variant with the right number of payloads, and have every
/// payload valid in order; a record must name the schema, have exactly the
/// declared number of fields, every declared field present and valid (in the
/// schema's key order), and no undeclared field.
pub open spec fn validate_spec(
    v: ValueModel,
    expected: L3SchemaType,
    schemas: KeyMap<L3Schema>,
    path: Seq<char>,
) -> Result<(), Seq<char>>
    decreases v, 1nat, 0nat,
{
    match (v, expected) {
        (ValueModel::Int(_), L3SchemaType::Int) => Ok(()),
        (ValueModel::Bool(_), L3SchemaType::Bool) => Ok(()),
        (ValueModel::Str(_), L3SchemaType::Str) => Ok(()),
        (ValueModel::Int(_), _) | (ValueModel::Bool(_), _) | (ValueModel::Str(_), _) => Err(
            path + ": expected "@ + schema_type_name(expected) + ", found primitive"@,
        ),
        (ValueModel::Ctor { nominal_sum, variant, args }, L3SchemaType::Named(name)) => {
            match schemas.lookup(name@) {
                None => Err(path + ": unknown schema '"@ + name@ + "'"@),
                Some(schema) => match schema.body {
                    L3SchemaBody::Record(_) => Err(
                        path + ": expected record '"@ + name@ + "', found sum"@,
                    ),
                    L3SchemaBody::Sum(variants) => {
                        if nominal_sum != name@ {
                            Err(path + ": expected nominal '"@ + name@ + "', found '"@ + nominal_sum + "'"@)
                        } else {
                            match variant_index(variants@, variant) {
                                None => Err(
                                    path + ": unknown variant '"@ + variant + "' of '"@ + name@ + "'"@,
                                ),
                                Some(k) => {
                                    let payloads = variants@[k].1@;
                                    if payloads.len() != args.len() {
                                        Err(path + ": variant '"@ + variant + "' expects "@ + decimal(
                                            payloads.len(),
                                        ) + " payload(s), found "@ + decimal(args.len()))
                                    } else {
                                        validate_args(v, payloads, schemas, path, 0)
                                    }
                                },
                            }
                        }
                    },
                },
            }
        },
        (ValueModel::Record { nominal_config, fields }, L3SchemaType::Named(name)) => {
            match schemas.lookup(name@) {
                None => Err(path + ": unknown schema '"@ + name@ + "'"@),
                Some(schema) => match schema.body {
                    L3SchemaBody::Sum(_) => Err(
                        path + ": expected sum '"@ + name@ + "', found record"@,
                    ),
                    L3SchemaBody::Record(expected_fields) => {
                        if nominal_config != name@ {
                            Err(path + ": expected nominal '"@ + name@ + "', found '"@ + nominal_config + "'"@)
                        } else if fields.len() != expected_fields.pairs().len() {
                            Err(path + ": record '"@ + name@ + "' expects "@ + decimal(
                                expected_fields.pairs().len(),
                            ) + " field(s), found "@ + decimal(fields.len()))
                        } else {
                            match validate_fields(v, expected_fields.pairs(), schemas, path, 0) {
                                Err(m) => Err(m),
                                Ok(()) => undeclared_field(fields, expected_fields, path, 0),
                            }
                        }
                    },
                },
            }
        },
        (ValueModel::Ctor { nominal_sum, .. }, _) => Err(
            path + ": expected "@ + schema_type_name(expected) + ", found '"@ + nominal_sum + "'"@,
        ),
        (ValueModel::Record { nominal_config, .. }, _) => Err(
            path + ": expected "@ + schema_type_name(expected) + ", found '"@ + nominal_config
                + "'"@,
        ),
    }
}

/// Validate the payloads of constructor `parent` from index `i` on.
pub open spec fn validate_args(
    parent: ValueModel,
    tys: Seq<L3SchemaType>,
    schemas: KeyMap<L3Schema>,
    path: Seq<char>,
    i: nat,
) -> Result<(), Seq<char>>
    decreases parent, 0nat, tys.len() - i,
{
    if parent is Ctor && i < tys.len() && i < parent->Ctor_args.len() {
        match validate_spec(
            parent->Ctor_args[i as int],
            tys[i as int],
            schemas,
            path + ".args["@ + decimal(i) + "]"@,
        ) {
            Err(m) => Err(m),
            Ok(()) => validate_args(parent, tys, schemas, path, i + 1),
        }
    } else {
        Ok(())
    }
}

/// Validate the declared fields of record `parent` from index `i` on.
pub open spec fn validate_fields(
    parent: ValueModel,
    expected: Seq<(Seq<char>, L3SchemaType)>,
    schemas: KeyMap<L3Schema>,
    path: Seq<char>,
    i: nat,
) -> Result<(), Seq<char>>
    decreases parent, 0nat, expected.len() - i,
{
    if parent is Record && i < expected.len() {
        let field = expected[i as int].0;
        match assoc_index(parent->Record_fields, field) {
            None => Err(path + "."@ + field + ": missing field"@),
            Some(k) => {
                if 0 <= k < parent->Record_fields.len() {
                    match validate_spec(
                        parent->Record_fields[k].1,
                        expected[i as int].1,
                        schemas,
                        path + "."@ + field,
                    ) {
                        Err(m) => Err(m),
                        Ok(()) => validate_fields(parent, expected, schemas, path, i + 1),
                    }
                } else {
                    Ok(())
                }
            },
        }
    } else {
        Ok(())
    }
}

/// The first field (from index `i` on) that the schema does not declare.
pub open spec fn undeclared_field(
    fields: Seq<(Seq<char>, ValueModel)>,
    expected: KeyMap<L3SchemaType>,
    path: Seq<char>,
    i: nat,
) -> Result<(), Seq<char>>
    decreases fields.len() - i,
{
    if i < fields.len() {
        if !expected.has(fields[i as int].0) {
            Err(path + "."@ + fields[i as int].0 + ": unknown field"@)
        } else {
            undeclared_field(fields, expected, path, i + 1)
        }
    } else {
        Ok(())
    }
}

/// Validate a runtime value against a closed schema, reporting the first
/// problem found with its nested path.
#[verifier::loop_isolation(false)]
pub fn validate_l3_value(
    value: &L3ValueV2,
    expected: &L3SchemaType,
    schemas: &KeyMap<L3Schema>,
    path: &str,
) -> (r: Result<(), String>)
    ensures
        check_text(r) == validate_spec(value@, *expected, *schemas, path@),
    decreases value,
{
    match (value, expected) {
        (L3ValueV2::Int(_), L3SchemaType::Int) | (L3ValueV2::Bool(_), L3SchemaType::Bool) | (
            L3ValueV2::Str(_),
            L3SchemaType::Str,
        ) => Ok(()),
        (L3ValueV2::Int(_), _) | (L3ValueV2::Bool(_), _) | (L3ValueV2::Str(_), _) => {
            let n = expected.display_name();
            Err(join4(path, ": expected ", n.as_str(), ", found primitive"))
        },
        (L3ValueV2::Ctor { nominal_sum, variant, args }, L3SchemaType::Named(name)) => {
            proof {
                lemma_values_model(args@);
            }
            let schema = match schemas.get(name.as_str()) {
                Some(s) => s,
                None => {
                    let a = join4(path, ": unknown schema '", name.as_str(), "'");
                    return Err(a);
                },
            };
            let variants = match &schema.body {
                L3SchemaBody::Sum(variants) => variants,
                L3SchemaBody::Record(_) => {
                    return Err(join4(path, ": expected record '", name.as_str(), "', found sum"));
                },
            };
            if !crate::keymap::same_text(nominal_sum.as_str(), name.as_str()) {
                let a = join4(path, ": expected nominal '", name.as_str(), "', found '");
                return Err(join3(a.as_str(), nominal_sum.as_str(), "'"));
            }
            let mut k: usize = 0;
            while k < variants.len()
                invariant
                    k <= variants@.len(),
                    forall|j: int| 0 <= j < k ==> variants@[j].0@ != variant@,
                decreases variants@.len() - k,
            {
                if crate::keymap::same_text(variants[k].0.as_str(), variant.as_str()) {
                    break;
                }
                k = k + 1;
            }
            proof {
                lemma_variant_index(variants@, variant@);
                if k < variants@.len() {
                    assert(variant_index(variants@, variant@) == Some(k as int)) by {
                        if variant_index(variants@, variant@) is None {
                        } else {
                            let w = variant_index(variants@, variant@)->0;
                            assert(!(w < k));
                            assert(!(w > k));
                        }
                    }
                }
            }
            if k == variants.len() {
                let a = join4(path, ": unknown variant '", variant.as_str(), "' of '");
                return Err(join3(a.as_str(), name.as_str(), "'"));
            }
            let payloads = &variants[k].1;
            if payloads.len() != args.len() {
                let pl = usize_text(payloads.len());
                let al = usize_text(args.len());
                let a = join5(path, ": variant '", variant.as_str(), "' expects ", pl.as_str());
                return Err(join3(a.as_str(), " payload(s), found ", al.as_str()));
            }
            let mut i: usize = 0;
            while i < args.len()
                invariant
                    i <= args@.len(),
                    payloads@.len() == args@.len(),
                    validate_spec(value@, *expected, *schemas, path@) == validate_args(
                        value@,
                        payloads@,
                        *schemas,
                        path@,
                        i as nat,
                    ),
                decreases args@.len() - i,
            {
                proof {
                    assert(decreases_to!(*value => value->Ctor_args));
                    assert(decreases_to!(value->Ctor_args => value->Ctor_args@));
                    assert(decreases_to!(value->Ctor_args@ => value->Ctor_args@[i as int]));
                }
                let idx = usize_text(i);
                let sub = join4(path, ".args[", idx.as_str(), "]");
                let r = validate_l3_value(&args[i], &payloads[i], schemas, sub.as_str());
                match r {
                    Err(m) => {
                        return Err(m);
                    },
                    Ok(()) => {},
                }
                i = i + 1;
            }
            Ok(())
        },
        (L3ValueV2::Record { nominal_config, fields }, L3SchemaType::Named(name)) => {
            proof {
                lemma_fields_model(fields@);
            }
            let schema = match schemas.get(name.as_str()) {
                Some(s) => s,
                None => {
                    let a = join4(path, ": unknown schema '", name.as_str(), "'");
                    return Err(a);
                },
            };
            let expected_fields = match &schema.body {
                L3SchemaBody::Record(f) => f,
                L3SchemaBody::Sum(_) => {
                    return Err(join4(path, ": expected sum '", name.as_str(), "', found record"));
                },
            };
            if !crate::keymap::same_text(nominal_config.as_str(), name.as_str()) {
                let a = join4(path, ": expected nominal '", name.as_str(), "', found '");
                return Err(join3(a.as_str(), nominal_config.as_str(), "'"));
            }
            if fields.len() != expected_fields.len() {
                let el = usize_text(expected_fields.len());
                let fl = usize_text(fields.len());
                let a = join5(path, ": record '", name.as_str(), "' expects ", el.as_str());
                return Err(join3(a.as_str(), " field(s), found ", fl.as_str()));
            }
            let mut i: usize = 0;
            while i < expected_fields.len()
                invariant
                    i <= expected_fields.pairs().len(),
                    fields@.len() == expected_fields.pairs().len(),
                    validate_fields(value@, expected_fields.pairs(), *schemas, path@, 0)
                        == validate_fields(value@, expected_fields.pairs(), *schemas, path@, i as nat),
                decreases expected_fields.pairs().len() - i,
            {
                let field = expected_fields.key_at(i);
                let field_ty = expected_fields.value_at(i);
                let mut k: usize = 0;
                while k < fields.len()
                    invariant
                        k <= fields@.len(),
                        forall|j: int| 0 <= j < k ==> fields@[j].0@ != field@,
                    decreases fields@.len() - k,
                {
                    if crate::keymap::same_text(fields[k].0.as_str(), field.as_str()) {
                        break;
                    }
                    k = k + 1;
                }
                proof {
                    let fm = value@->Record_fields;
                    lemma_assoc_index(fm, field@);
                    if k < fields@.len() {
                        assert(fm[k as int].0 == field@);
                        assert(assoc_index(fm, field@) == Some(k as int)) by {
                            if assoc_index(fm, field@) is None {
                            } else {
                                let w = assoc_index(fm, field@)->0;
                                assert(!(w < k)) by {
                                    if w < k {
                                        assert(fm[w].0 == fields@[w].0@);
                                    }
                                }
                                assert(!(w > k));
                            }
                        }
                    } else {
                        assert forall|j: int| 0 <= j < fm.len() implies fm[j].0 != field@ by {
                            assert(fm[j].0 == fields@[j].0@);
                        }
                    }
                }
                if k == fields.len() {
                    return Err(join4(path, ".", field.as_str(), ": missing field"));
                }
                proof {
                    assert(decreases_to!(*value => value->Record_fields));
                    assert(decreases_to!(value->Record_fields => value->Record_fields@));
                    assert(decreases_to!(value->Record_fields@ => value->Record_fields@[k as int]));
                    assert(decreases_to!(value->Record_fields@[k as int] => value->Record_fields@[k as int].1));
                }
                let sub = join3(path, ".", field.as_str());
                let r = validate_l3_value(&fields[k].1, field_ty, schemas, sub.as_str());
                match r {
                    Err(m) => {
                        return Err(m);
                    },
                    Ok(()) => {},
                }
                i = i + 1;
            }
            let mut j: usize = 0;
            while j < fields.len()
                invariant
                    j <= fields@.len(),
                    undeclared_field(value@->Record_fields, *expected_fields, path@, 0)
                        == undeclared_field(value@->Record_fields, *expected_fields, path@, j as nat),
                decreases fields@.len() - j,
            {
                if !expected_fields.contains_key(fields[j].0.as_str()) {
                    return Err(join4(path, ".", fields[j].0.as_str(), ": unknown field"));
                }
                j = j + 1;
            }
            Ok(())
        },
        (L3ValueV2::Ctor { nominal_sum, .. }, _) => {
            let n = expected.display_name();
            let a = join4(path, ": expected ", n.as_str(), ", found '");
            Err(join3(a.as_str(), nominal_sum.as_str(), "'"))
        },
        (L3ValueV2::Record { nominal_config, .. }, _) => {
            let n = expected.display_name();
            let a = join4(path, ": expected ", n.as_str(), ", found '");
            Err(join3(a.as_str(), nominal_config.as_str(), "'"))
        },
    }
}

} // verus!
