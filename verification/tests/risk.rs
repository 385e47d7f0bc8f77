use diffscope::analysis::{FunctionChangeStatus, MatchConfidence};
use diffscope::query::classify::FileClassification;
use diffscope::query::risk::{
    assess, ExportStatus, Reason, RiskLevel, RiskSignals, ScoreAssessment, HIGH_SCORE, MEDIUM_SCORE, REVIEW_PRIORITY_MAXIMUM_SCORE,
    REVIEW_PRIORITY_MODEL, RISK_MAXIMUM_SCORE, RISK_MODEL,
};

/// Signals with nothing for either model to score.
fn quiet() -> RiskSignals {
    RiskSignals {
        classification: FileClassification::Test,
        status: FunctionChangeStatus::Modified,
        cyclomatic_delta: 0,
        cognitive_delta: 0,
        cognitive_after: 0,
        cyclomatic_after: 0,
        churned_lines: 0,
        match_confidence: MatchConfidence::Exact,
        exported: ExportStatus::Unchanged,
        direct_importers: None,
    }
}

fn codes(assessment: &ScoreAssessment) -> Vec<&'static str> {
    assessment
        .reasons
        .iter()
        .map(|reason| reason.code)
        .collect()
}

fn reason<'a>(assessment: &'a ScoreAssessment, code: &str) -> &'a Reason {
    assessment
        .reasons
        .iter()
        .find(|reason| reason.code == code)
        .unwrap_or_else(|| panic!("no {code} reason in {:?}", codes(assessment)))
}

#[test]
fn quiet_function_scores_zero_and_carries_the_model_metadata() {
    let assessment = assess(&quiet());

    assert_eq!(assessment.risk.model, RISK_MODEL);
    assert_eq!(assessment.risk.maximum_score, RISK_MAXIMUM_SCORE);
    assert_eq!(assessment.risk.score, 0);
    assert_eq!(assessment.risk.level, RiskLevel::Low);
    assert!(assessment.risk.reasons.is_empty());

    assert_eq!(assessment.review_priority.model, REVIEW_PRIORITY_MODEL);
    assert_eq!(
        assessment.review_priority.maximum_score,
        REVIEW_PRIORITY_MAXIMUM_SCORE
    );
    assert_eq!(assessment.review_priority.score, 0);
    assert_eq!(assessment.review_priority.level, RiskLevel::Low);
    assert!(assessment.review_priority.reasons.is_empty());
}

#[test]
fn every_rule_at_its_top_tier_reaches_the_model_maximum() {
    let mut signals = quiet();
    signals.status = FunctionChangeStatus::Modified;
    signals.cognitive_delta = 12;
    signals.cognitive_after = 40;
    signals.cyclomatic_delta = 6;
    signals.cyclomatic_after = 25;
    signals.churned_lines = 40;
    signals.exported = ExportStatus::Removed;
    signals.direct_importers = Some(25);
    signals.classification = FileClassification::Source;

    let assessment = assess(&signals);
    assert_eq!(assessment.risk.score, RISK_MAXIMUM_SCORE);
    assert_eq!(
        assessment.review_priority.score,
        REVIEW_PRIORITY_MAXIMUM_SCORE
    );
    assert_eq!(assessment.risk.level, RiskLevel::High);
    assert_eq!(assessment.review_priority.level, RiskLevel::High);

    // An added function cannot reach the intrinsic maximum: it has no
    // increase to score, only the absolute complexity it starts at.
    signals.status = FunctionChangeStatus::Added;
    signals.exported = ExportStatus::Added;
    assert_eq!(assess(&signals).risk.score, 3 + 2 + 1);
}

#[test]
fn added_functions_use_absolute_complexity_never_increased_wording() {
    let mut added = quiet();
    added.status = FunctionChangeStatus::Added;
    added.cognitive_delta = 12;
    added.cognitive_after = 12;
    added.cyclomatic_delta = 11;
    added.cyclomatic_after = 11;

    let assessment = assess(&added);
    let cognitive = reason(&assessment.risk, "added_function_cognitive_complexity");
    assert_eq!(
        cognitive.message,
        "new function has cognitive complexity 12"
    );
    assert_eq!(cognitive.value, Some(12));
    let cyclomatic = reason(&assessment.risk, "added_function_cyclomatic_complexity");
    assert_eq!(
        cyclomatic.message,
        "new function has cyclomatic complexity 11"
    );
    assert_eq!(cyclomatic.value, Some(11));
    assert_eq!(assessment.risk.score, 2);
    assert!(assessment.review_priority.reasons.iter().all(|reason| {
        !reason.message.contains("increased") && !reason.code.contains("increased")
    }));

    let mut modified = quiet();
    modified.cognitive_delta = 12;
    modified.cognitive_after = 12;
    modified.cyclomatic_delta = 11;

    let assessment = assess(&modified);
    assert_eq!(
        reason(&assessment.risk, "cognitive_complexity_increased").message,
        "cognitive complexity increased by 12"
    );
    assert_eq!(assessment.risk.score, 3 + 2);
    assert!(!codes(&assessment.risk).contains(&"added_function_cognitive_complexity"));
}

#[test]
fn containing_module_importers_raise_review_priority_alone() {
    let mut signals = quiet();
    signals.direct_importers = Some(7);
    signals.classification = FileClassification::Source;

    let assessment = assess(&signals);
    assert_eq!(assessment.risk.score, 0);
    assert_eq!(assessment.risk.level, RiskLevel::Low);
    assert!(assessment.risk.reasons.is_empty());

    let importers = reason(
        &assessment.review_priority,
        "containing_module_direct_importers",
    );
    assert_eq!(
        importers.message,
        "containing module is imported directly by 7 modules"
    );
    assert_eq!(importers.value, Some(7));
    let source = reason(&assessment.review_priority, "production_source");
    assert_eq!(source.message, "production source file");
    assert_eq!(source.value, None);
    assert_eq!(assessment.review_priority.score, 1 + 1);
    assert_eq!(assessment.review_priority.level, RiskLevel::Medium);

    let mut crowded = quiet();
    crowded.direct_importers = Some(25);
    let crowded = assess(&crowded);
    assert_eq!(
        reason(
            &crowded.review_priority,
            "containing_module_direct_importers"
        )
        .value,
        Some(25)
    );
    assert_eq!(crowded.review_priority.score, 2);

    let mut rare = quiet();
    rare.direct_importers = Some(4);
    assert!(assess(&rare).review_priority.reasons.is_empty());
}

#[test]
fn review_priority_extends_intrinsic_risk_with_exposure() {
    let mut signals = quiet();
    signals.cognitive_delta = 2;
    signals.churned_lines = 31;
    signals.exported = ExportStatus::Removed;

    let assessment = assess(&signals);
    assert_eq!(assessment.risk.score, 1 + 1);
    assert_eq!(assessment.risk.level, RiskLevel::Medium);
    assert!(!codes(&assessment.risk).contains(&"export_removed"));
    assert_eq!(assessment.review_priority.score, 1 + 1 + 3);
    assert_eq!(assessment.review_priority.level, RiskLevel::High);
    assert!(
        assessment
            .review_priority
            .reasons
            .starts_with(&assessment.risk.reasons)
    );
    assert_eq!(
        assessment.review_priority.reasons.len(),
        assessment.risk.reasons.len() + 1
    );
    assert_eq!(
        reason(&assessment.review_priority, "export_removed").message,
        "no longer exported; every importer of this name breaks"
    );

    signals.exported = ExportStatus::Added;
    let assessment = assess(&signals);
    assert_eq!(
        reason(&assessment.review_priority, "export_added").message,
        "newly part of the module's public surface"
    );
    assert_eq!(assessment.review_priority.score, 1 + 1 + 1);
}

#[test]
fn confidence_is_a_caveat_in_both_models_and_carries_no_points() {
    let mut signals = quiet();
    signals.match_confidence = MatchConfidence::Positional;

    let assessment = assess(&signals);
    assert_eq!(assessment.risk.score, 0);
    let confidence = reason(&assessment.risk, "match_confidence");
    assert_eq!(
        confidence.message,
        "matched with 0.6 confidence; verify it is the same function"
    );
    assert_eq!(confidence.value, None);
    assert_eq!(
        assessment.risk.reasons.last().map(|reason| reason.code),
        Some("match_confidence")
    );
    assert_eq!(assessment.review_priority.score, 0);
    assert_eq!(
        assessment
            .review_priority
            .reasons
            .last()
            .map(|reason| reason.code),
        Some("match_confidence")
    );
}

#[test]
fn levels_bucket_at_the_documented_thresholds_and_parse_round_trips() {
    let mut low = quiet();
    low.cognitive_delta = 2;
    assert_eq!(assess(&low).risk.level, RiskLevel::Low);

    let mut medium = quiet();
    medium.cognitive_delta = 5;
    let assessment = assess(&medium);
    assert_eq!(assessment.risk.score, MEDIUM_SCORE);
    assert_eq!(assessment.risk.level, RiskLevel::Medium);

    let mut high = quiet();
    high.cognitive_delta = 10;
    high.cyclomatic_delta = 5;
    let assessment = assess(&high);
    assert_eq!(assessment.risk.score, HIGH_SCORE);
    assert_eq!(assessment.risk.level, RiskLevel::High);

    for level in [RiskLevel::Low, RiskLevel::Medium, RiskLevel::High] {
        assert_eq!(RiskLevel::parse(level.as_str()), Some(level));
    }
    assert_eq!(RiskLevel::parse("High"), None);
    assert_eq!(RiskLevel::parse("extreme"), None);
}

#[test]
fn serialized_shape_matches_the_documented_keys() {
    let mut signals = quiet();
    signals.cognitive_delta = 7;
    signals.direct_importers = Some(9);
    signals.classification = FileClassification::Source;
    signals.match_confidence = MatchConfidence::IdenticalBody;

    let value = assess(&signals);
    let risk = &value.risk;
    assert_eq!(risk.model, RISK_MODEL);
    assert_eq!(risk.maximum_score, RISK_MAXIMUM_SCORE);
    assert_eq!(risk.score, 2);
    assert_eq!(risk.level.as_str(), "medium");
    assert_eq!(risk.reasons[0].code, "cognitive_complexity_increased");
    assert_eq!(risk.reasons[0].message, "cognitive complexity increased by 7");
    assert_eq!(risk.reasons[0].value, Some(7));
    assert_eq!(risk.reasons[1].code, "match_confidence");
    assert!(risk.reasons[1].value.is_none());

    let priority = &value.review_priority;
    assert_eq!(priority.model, REVIEW_PRIORITY_MODEL);
    assert_eq!(priority.maximum_score, REVIEW_PRIORITY_MAXIMUM_SCORE);
    assert_eq!(priority.score, 2 + 1 + 1);
    assert_eq!(priority.level.as_str(), "medium");
    assert_eq!(priority.reasons[1].code, "containing_module_direct_importers");
    assert_eq!(priority.reasons[2].code, "production_source");
}
