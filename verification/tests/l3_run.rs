use brix_lower::l3_run::{AdapterFailureDetail, L3UnknownReasonV1};

#[test]
fn unknown_reason_ordinals_are_pairwise_distinct() {
    let reasons = [
        L3UnknownReasonV1::AdministrativeBudgetExhausted,
        L3UnknownReasonV1::AdministrativeStateBudgetExhausted,
        L3UnknownReasonV1::VisibleBudgetExhausted,
        L3UnknownReasonV1::ProfileError,
        L3UnknownReasonV1::CommitFailed,
        L3UnknownReasonV1::UndeclaredAssumption,
        L3UnknownReasonV1::AssumptionViolated,
        L3UnknownReasonV1::KeyConflict,
        L3UnknownReasonV1::AdapterIntegrityFailure,
        L3UnknownReasonV1::DivergenceObserved,
    ];
    for i in 0..reasons.len() {
        for j in (i + 1)..reasons.len() {
            assert_ne!(reasons[i].ordinal(), reasons[j].ordinal());
        }
    }
}

#[test]
fn unknown_reason_ordinals_follow_declaration_order() {
    assert_eq!(L3UnknownReasonV1::AdministrativeBudgetExhausted.ordinal(), 0);
    assert_eq!(L3UnknownReasonV1::ProfileError.ordinal(), 3);
    assert_eq!(L3UnknownReasonV1::KeyConflict.ordinal(), 7);
    assert_eq!(L3UnknownReasonV1::DivergenceObserved.ordinal(), 9);
}

#[test]
fn adapter_failure_detail_carries_its_rendering() {
    let d = AdapterFailureDetail::FrontierIntegrity("conflict".to_string());
    assert_eq!(d.clone(), d);
    assert_ne!(d, AdapterFailureDetail::UnknownCandidate);
}
