use forall_toolkit::schema::{
    claimed_evidence_level, summarize_verification, validate_mapping, CodeRef, EvidenceLevel,
    IssueSeverity, Mapping, PropertyRef, Requirement, ScenarioRef,
};

fn requirement() -> Requirement {
    Requirement {
        id: "REQ-1".to_string(),
        capability: "cap".to_string(),
        requirement: "text".to_string(),
        verified: false,
        property_tested: false,
        property: None,
        code: None,
        contract: None,
        claimcheck: None,
        scenarios: None,
    }
}

#[test]
fn ladder_orders_rungs_for_ratchet_comparisons() {
    assert!(EvidenceLevel::Untracked < EvidenceLevel::SpecTracked);
    assert!(EvidenceLevel::SpecTracked < EvidenceLevel::Tested);
    assert!(EvidenceLevel::Tested < EvidenceLevel::PropertyTested);
    assert!(EvidenceLevel::PropertyTested < EvidenceLevel::Contracted);
    assert!(EvidenceLevel::Contracted < EvidenceLevel::Proved);
}

#[test]
fn verified_rung_comparison_agrees_with_the_ladder() {
    let ladder = [
        EvidenceLevel::Untracked,
        EvidenceLevel::SpecTracked,
        EvidenceLevel::Tested,
        EvidenceLevel::PropertyTested,
        EvidenceLevel::Contracted,
        EvidenceLevel::Proved,
    ];
    for (i, a) in ladder.iter().enumerate() {
        for (j, b) in ladder.iter().enumerate() {
            assert_eq!(a.is_below(*b), i < j, "{a:?} below {b:?}");
            assert_eq!(a.is_below(*b), a < b);
        }
    }
}

#[test]
fn claimed_level_takes_the_highest_rung_the_mapping_states() {
    let mut req = requirement();
    assert_eq!(claimed_evidence_level(&req), EvidenceLevel::Untracked);

    req.code = Some(CodeRef {
        file: "src/a.c".to_string(),
        symbols: vec!["f".to_string()],
    });
    assert_eq!(claimed_evidence_level(&req), EvidenceLevel::SpecTracked);

    req.scenarios = Some(vec![ScenarioRef {
        name: "s".to_string(),
        kind: None,
    }]);
    assert_eq!(claimed_evidence_level(&req), EvidenceLevel::Tested);

    req.property_tested = true;
    assert_eq!(claimed_evidence_level(&req), EvidenceLevel::PropertyTested);

    req.contract = Some("Bounds".to_string());
    assert_eq!(claimed_evidence_level(&req), EvidenceLevel::Contracted);

    req.property_tested = false;
    req.verified = true;
    assert_eq!(claimed_evidence_level(&req), EvidenceLevel::Proved);
}

#[test]
fn version_2_mappings_reject_hand_written_evidence_claims() {
    let mut req = requirement();
    req.verified = true;
    let mapping = Mapping {
        version: 2,
        requirements: vec![req],
    };
    let err = validate_mapping(&mapping).unwrap_err();
    assert!(err.contains("derived from the verify ledger"), "got: {err}");

    let mut legacy_req = requirement();
    legacy_req.verified = true;
    let legacy = Mapping {
        version: 1,
        requirements: vec![legacy_req],
    };
    assert!(validate_mapping(&legacy).is_ok());

    let clean = Mapping {
        version: 2,
        requirements: vec![requirement()],
    };
    assert!(validate_mapping(&clean).is_ok());

    let future = Mapping {
        version: 3,
        requirements: Vec::new(),
    };
    assert!(validate_mapping(&future).is_err());
}

#[test]
fn evidence_levels_and_severities_have_wire_names() {
    assert_eq!(EvidenceLevel::Untracked.as_str(), "none");
    assert_eq!(EvidenceLevel::SpecTracked.as_str(), "spec_tracked");
    assert_eq!(EvidenceLevel::PropertyTested.as_str(), "property_tested");
    assert_eq!(EvidenceLevel::Proved.as_str(), "proved");
    assert_eq!(IssueSeverity::Critical.as_str(), "CRITICAL");
    assert_eq!(IssueSeverity::Warning.as_str(), "WARNING");
    assert_eq!(IssueSeverity::Info.as_str(), "INFO");
}

#[test]
fn validation_reports_the_first_rule_broken() {
    let future = Mapping {
        version: 3,
        requirements: Vec::new(),
    };
    assert_eq!(
        validate_mapping(&future).unwrap_err(),
        "mapping version must be 1 or 2, got 3"
    );

    let mut both = requirement();
    both.verified = true;
    both.property_tested = true;
    let err = validate_mapping(&Mapping {
        version: 1,
        requirements: vec![both],
    })
    .unwrap_err();
    assert_eq!(
        err,
        "requirement 'REQ-1' cannot set both verified and property_tested (v1: mutually exclusive)"
    );

    let mut empty_property = requirement();
    empty_property.property_tested = true;
    empty_property.property = Some(PropertyRef {
        file: String::new(),
        symbol: None,
    });
    assert_eq!(
        validate_mapping(&Mapping {
            version: 1,
            requirements: vec![empty_property],
        })
        .unwrap_err(),
        "requirement 'REQ-1' property.file must not be empty"
    );

    let mut no_symbols = requirement();
    no_symbols.code = Some(CodeRef {
        file: "src/a.rs".to_string(),
        symbols: Vec::new(),
    });
    assert_eq!(
        validate_mapping(&Mapping {
            version: 1,
            requirements: vec![no_symbols],
        })
        .unwrap_err(),
        "code.symbols must not be empty"
    );

    let mut blank = requirement();
    blank.capability = String::new();
    assert_eq!(
        validate_mapping(&Mapping {
            version: 1,
            requirements: vec![blank],
        })
        .unwrap_err(),
        "requirement capability must not be empty"
    );
}

#[test]
fn summary_counts_each_bucket() {
    let mut proved = requirement();
    proved.verified = true;
    let mut tested = requirement();
    tested.property_tested = true;
    let plain = requirement();
    let summary = summarize_verification(&[proved, tested, plain.clone(), plain]);
    assert_eq!(summary.total_requirements, 4);
    assert_eq!(summary.proved_requirements, 1);
    assert_eq!(summary.property_tested_requirements, 1);
    assert_eq!(summary.spec_tracked_requirements, 2);
    assert_eq!(
        summary.proved_requirements
            + summary.property_tested_requirements
            + summary.spec_tracked_requirements,
        summary.total_requirements
    );
}
