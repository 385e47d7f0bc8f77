//! What a changed function scores.

use vstd::prelude::*;

use crate::analysis::{FunctionChangeStatus, MatchConfidence};
use crate::query::classify::FileClassification;
use crate::query::risk::{
    added_rules, assessment_of, caveat, changed_rules, contribution, export_rule, exposure_rules, importers_rule, intrinsic_rules,
    lemma_contribution_points, lemma_points_add, points_of, reasons_of, tier, two_tiers, ExportStatus, ReasonView, RiskLevel, RiskSignals, Scored,
};
use crate::text::decimal;

verus! {

/// One point where a measured value is at or above a threshold.
pub open spec fn reached(value: int, threshold: int) -> nat {
    if value >= threshold {
        1
    } else {
        0
    }
}

/// The rule on churn.
spec fn churn_rule(s: RiskSignals) -> Seq<Scored> {
    contribution(
        if s.churned_lines >= 30 {
            1
        } else {
            0
        },
        "high_churn"@,
        decimal(s.churned_lines as nat) + " lines changed inside the function"@,
        Some(s.churned_lines as i64),
    )
}

/// The rule on production source.
spec fn source_rule(s: RiskSignals) -> Seq<Scored> {
    contribution(
        if s.classification == FileClassification::Source {
            1
        } else {
            0
        },
        "production_source"@,
        "production source file"@,
        None,
    )
}

proof fn lemma_intrinsic_points(s: RiskSignals)
    ensures
        s.status == FunctionChangeStatus::Added ==> points_of(intrinsic_rules(s)) == tier(s.cognitive_after as int, 30, 15, 10) + two_tiers(
            s.cyclomatic_after as int,
            20,
            10,
        ) + reached(s.churned_lines as int, 30),
        s.status != FunctionChangeStatus::Added ==> points_of(intrinsic_rules(s)) == tier(s.cognitive_delta as int, 10, 5, 2) + two_tiers(
            s.cyclomatic_delta as int,
            5,
            2,
        ) + two_tiers(s.cognitive_after as int, 30, 15) + reached(s.churned_lines as int, 30),
{
    lemma_contribution_points(
        reached(s.churned_lines as int, 30),
        "high_churn"@,
        decimal(s.churned_lines as nat) + " lines changed inside the function"@,
        Some(s.churned_lines as i64),
    );
    if s.status == FunctionChangeStatus::Added {
        lemma_points_add(added_rules(s), churn_rule(s));
        let first = contribution(
            tier(s.cognitive_after as int, 30, 15, 10),
            "added_function_cognitive_complexity"@,
            "new function has cognitive complexity "@ + decimal(s.cognitive_after as nat),
            Some(s.cognitive_after as i64),
        );
        let second = contribution(
            two_tiers(s.cyclomatic_after as int, 20, 10),
            "added_function_cyclomatic_complexity"@,
            "new function has cyclomatic complexity "@ + decimal(s.cyclomatic_after as nat),
            Some(s.cyclomatic_after as i64),
        );
        lemma_points_add(first, second);
        lemma_contribution_points(
            tier(s.cognitive_after as int, 30, 15, 10),
            "added_function_cognitive_complexity"@,
            "new function has cognitive complexity "@ + decimal(s.cognitive_after as nat),
            Some(s.cognitive_after as i64),
        );
        lemma_contribution_points(
            two_tiers(s.cyclomatic_after as int, 20, 10),
            "added_function_cyclomatic_complexity"@,
            "new function has cyclomatic complexity "@ + decimal(s.cyclomatic_after as nat),
            Some(s.cyclomatic_after as i64),
        );
    } else {
        lemma_points_add(changed_rules(s), churn_rule(s));
        let first = contribution(
            tier(s.cognitive_delta as int, 10, 5, 2),
            "cognitive_complexity_increased"@,
            "cognitive complexity increased by "@ + decimal(s.cognitive_delta as nat),
            Some(s.cognitive_delta),
        );
        let second = contribution(
            two_tiers(s.cyclomatic_delta as int, 5, 2),
            "cyclomatic_complexity_increased"@,
            "cyclomatic complexity increased by "@ + decimal(s.cyclomatic_delta as nat),
            Some(s.cyclomatic_delta),
        );
        let third = contribution(
            two_tiers(s.cognitive_after as int, 30, 15),
            "cognitive_complexity_after"@,
            "cognitive complexity is "@ + decimal(s.cognitive_after as nat) + " after the change"@,
            Some(s.cognitive_after as i64),
        );
        lemma_points_add(first, second);
        lemma_points_add(first + second, third);
        lemma_contribution_points(
            tier(s.cognitive_delta as int, 10, 5, 2),
            "cognitive_complexity_increased"@,
            "cognitive complexity increased by "@ + decimal(s.cognitive_delta as nat),
            Some(s.cognitive_delta),
        );
        lemma_contribution_points(
            two_tiers(s.cyclomatic_delta as int, 5, 2),
            "cyclomatic_complexity_increased"@,
            "cyclomatic complexity increased by "@ + decimal(s.cyclomatic_delta as nat),
            Some(s.cyclomatic_delta),
        );
        lemma_contribution_points(
            two_tiers(s.cognitive_after as int, 30, 15),
            "cognitive_complexity_after"@,
            "cognitive complexity is "@ + decimal(s.cognitive_after as nat) + " after the change"@,
            Some(s.cognitive_after as i64),
        );
    }
}

proof fn lemma_exposure_points(s: RiskSignals)
    ensures
        points_of(exposure_rules(s)) == points_of(export_rule(s)) + points_of(importers_rule(s)) + points_of(source_rule(s)),
        points_of(export_rule(s)) == match s.exported {
            ExportStatus::Removed => 3nat,
            ExportStatus::Added => 1,
            ExportStatus::Unchanged => 0,
        },
        points_of(importers_rule(s)) == match s.direct_importers {
            Some(n) => two_tiers(n as int, 20, 5),
            None => 0,
        },
        points_of(source_rule(s)) == if s.classification == FileClassification::Source {
            1nat
        } else {
            0
        },
{
    lemma_points_add(export_rule(s) + importers_rule(s), source_rule(s));
    lemma_points_add(export_rule(s), importers_rule(s));
    lemma_contribution_points(
        if s.classification == FileClassification::Source {
            1
        } else {
            0
        },
        "production_source"@,
        "production source file"@,
        None,
    );
    lemma_contribution_points(3, "export_removed"@, "no longer exported; every importer of this name breaks"@, None);
    lemma_contribution_points(1, "export_added"@, "newly part of the module's public surface"@, None);
    match s.direct_importers {
        Some(n) => lemma_contribution_points(
            two_tiers(n as int, 20, 5),
            "containing_module_direct_importers"@,
            "containing module is imported directly by "@ + decimal(n as nat) + " modules"@,
            Some(n as i64),
        ),
        None => {},
    }
}

/// The score of a change is the number of thresholds that its measures reach.
///
/// A new function is measured by the cognitive complexity it starts with,
/// against ten, fifteen and thirty, and by its cyclomatic complexity, against
/// ten and twenty. Any other is measured by how much its cognitive complexity
/// grew, against two, five and ten, by how much its cyclomatic complexity grew,
/// against two and five, and by the cognitive complexity it ends with, against
/// fifteen and thirty. Thirty changed lines are one more. What is exposed adds
/// to that: an export gone three points and a new one one, five and twenty
/// direct importers a point each, and production source a point.
#[verifier::rlimit(60)]
#[verifier::spinoff_prover]
pub proof fn lemma_score_counts_thresholds(s: RiskSignals)
    ensures
        s.status == FunctionChangeStatus::Added ==> assessment_of(s).risk.score == reached(s.cognitive_after as int, 10) + reached(
            s.cognitive_after as int,
            15,
        ) + reached(s.cognitive_after as int, 30) + reached(s.cyclomatic_after as int, 10) + reached(s.cyclomatic_after as int, 20) + reached(
            s.churned_lines as int,
            30,
        ),
        s.status != FunctionChangeStatus::Added ==> assessment_of(s).risk.score == reached(s.cognitive_delta as int, 2) + reached(
            s.cognitive_delta as int,
            5,
        ) + reached(s.cognitive_delta as int, 10) + reached(s.cyclomatic_delta as int, 2) + reached(s.cyclomatic_delta as int, 5) + reached(
            s.cognitive_after as int,
            15,
        ) + reached(s.cognitive_after as int, 30) + reached(s.churned_lines as int, 30),
        assessment_of(s).review_priority.score == assessment_of(s).risk.score + (match s.exported {
            ExportStatus::Removed => 3nat,
            ExportStatus::Added => 1,
            ExportStatus::Unchanged => 0,
        }) + (match s.direct_importers {
            Some(n) => reached(n as int, 5) + reached(n as int, 20),
            None => 0,
        }) + (if s.classification == FileClassification::Source {
            1nat
        } else {
            0
        }),
        assessment_of(s).risk.maximum_score == 8,
        assessment_of(s).review_priority.maximum_score == 14,
{
    lemma_intrinsic_points(s);
    lemma_exposure_points(s);
    lemma_points_add(intrinsic_rules(s), exposure_rules(s));
}

/// A score of five or more is high, one of two to four medium, and any other
/// low, in both models.
pub proof fn lemma_level_buckets_score(s: RiskSignals)
    ensures
        assessment_of(s).risk.level == RiskLevel::High <==> assessment_of(s).risk.score >= 5,
        assessment_of(s).risk.level == RiskLevel::Medium <==> 2 <= assessment_of(s).risk.score <= 4,
        assessment_of(s).risk.level == RiskLevel::Low <==> assessment_of(s).risk.score <= 1,
        assessment_of(s).review_priority.level == RiskLevel::High <==> assessment_of(s).review_priority.score >= 5,
        assessment_of(s).review_priority.level == RiskLevel::Medium <==> 2 <= assessment_of(s).review_priority.score <= 4,
        assessment_of(s).review_priority.level == RiskLevel::Low <==> assessment_of(s).review_priority.score <= 1,
{
    lemma_score_counts_thresholds(s);
    lemma_intrinsic_points(s);
    lemma_exposure_points(s);
    lemma_points_add(intrinsic_rules(s), exposure_rules(s));
}

/// Whether one change is measured no lower than another of the same status.
pub open spec fn at_least(a: RiskSignals, b: RiskSignals) -> bool {
    &&& a.status == b.status
    &&& a.cyclomatic_delta >= b.cyclomatic_delta
    &&& a.cognitive_delta >= b.cognitive_delta
    &&& a.cognitive_after >= b.cognitive_after
    &&& a.cyclomatic_after >= b.cyclomatic_after
    &&& a.churned_lines >= b.churned_lines
    &&& a.exported == b.exported
    &&& a.classification == b.classification
    &&& b.direct_importers matches Some(n) ==> a.direct_importers matches Some(m) && m >= n
}

/// A score never falls as a measure grows.
#[verifier::rlimit(60)]
#[verifier::spinoff_prover]
pub proof fn lemma_score_never_falls(a: RiskSignals, b: RiskSignals)
    requires
        at_least(a, b),
    ensures
        assessment_of(a).risk.score >= assessment_of(b).risk.score,
        assessment_of(a).review_priority.score >= assessment_of(b).review_priority.score,
{
    lemma_score_counts_thresholds(a);
    lemma_score_counts_thresholds(b);
}

/// Whether one of some reasons has a code, a message and a value.
pub open spec fn gives(reasons: Seq<ReasonView>, code: Seq<char>, message: Seq<char>, value: Option<i64>) -> bool {
    reasons.contains(ReasonView { code, message, value })
}

proof fn lemma_cited(before: Seq<Scored>, rule: Seq<Scored>, behind: Seq<Scored>, rest: Seq<ReasonView>)
    requires
        rule.len() == 1,
    ensures
        (reasons_of(before + rule + behind) + rest).contains(rule[0].reason),
{
    let all = reasons_of(before + rule + behind) + rest;
    assert(all[before.len() as int] == rule[0].reason);
}

proof fn lemma_caveat(rules: Seq<Scored>, s: RiskSignals)
    ensures
        s.match_confidence == MatchConfidence::IdenticalBody ==> gives(
            reasons_of(rules) + caveat(s),
            "match_confidence"@,
            "matched with 0."@ + decimal(9) + " confidence; verify it is the same function"@,
            None,
        ),
        s.match_confidence == MatchConfidence::Positional ==> gives(
            reasons_of(rules) + caveat(s),
            "match_confidence"@,
            "matched with 0."@ + decimal(6) + " confidence; verify it is the same function"@,
            None,
        ),
{
    let all = reasons_of(rules) + caveat(s);
    if s.match_confidence != MatchConfidence::Exact {
        assert(all[rules.len() as int] == caveat(s)[0]);
    }
}

/// Every measure of a new function that reaches its first threshold is a reason
/// with the measured value, and so is a match that is not exact; there are no
/// others.
#[verifier::rlimit(60)]
#[verifier::spinoff_prover]
pub proof fn lemma_reasons_of_new_function(s: RiskSignals)
    requires
        s.status == FunctionChangeStatus::Added,
    ensures
        s.cognitive_after >= 10 ==> gives(
            assessment_of(s).risk.reasons,
            "added_function_cognitive_complexity"@,
            "new function has cognitive complexity "@ + decimal(s.cognitive_after as nat),
            Some(s.cognitive_after as i64),
        ),
        s.cyclomatic_after >= 10 ==> gives(
            assessment_of(s).risk.reasons,
            "added_function_cyclomatic_complexity"@,
            "new function has cyclomatic complexity "@ + decimal(s.cyclomatic_after as nat),
            Some(s.cyclomatic_after as i64),
        ),
        s.churned_lines >= 30 ==> gives(
            assessment_of(s).risk.reasons,
            "high_churn"@,
            decimal(s.churned_lines as nat) + " lines changed inside the function"@,
            Some(s.churned_lines as i64),
        ),
        s.match_confidence == MatchConfidence::IdenticalBody ==> gives(
            assessment_of(s).risk.reasons,
            "match_confidence"@,
            "matched with 0."@ + decimal(9) + " confidence; verify it is the same function"@,
            None,
        ),
        s.match_confidence == MatchConfidence::Positional ==> gives(
            assessment_of(s).risk.reasons,
            "match_confidence"@,
            "matched with 0."@ + decimal(6) + " confidence; verify it is the same function"@,
            None,
        ),
        assessment_of(s).risk.reasons.len() == reasons_expected(s),
{
    let first = contribution(
        tier(s.cognitive_after as int, 30, 15, 10),
        "added_function_cognitive_complexity"@,
        "new function has cognitive complexity "@ + decimal(s.cognitive_after as nat),
        Some(s.cognitive_after as i64),
    );
    let second = contribution(
        two_tiers(s.cyclomatic_after as int, 20, 10),
        "added_function_cyclomatic_complexity"@,
        "new function has cyclomatic complexity "@ + decimal(s.cyclomatic_after as nat),
        Some(s.cyclomatic_after as i64),
    );
    let last = churn_rule(s);
    let none = Seq::<Scored>::empty();
    let rules = intrinsic_rules(s);
    assert(rules == first + second + last);
    lemma_caveat(rules, s);
    if s.cognitive_after >= 10 {
        assert(none + first + (second + last) =~= rules);
        lemma_cited(none, first, second + last, caveat(s));
    }
    if s.cyclomatic_after >= 10 {
        lemma_cited(first, second, last, caveat(s));
    }
    if s.churned_lines >= 30 {
        assert(first + second + last + none =~= rules);
        lemma_cited(first + second, last, none, caveat(s));
    }
}

/// Every measure of a function that already existed that reaches its first
/// threshold is a reason with the measured value, and so is a match that is not
/// exact; there are no others.
#[verifier::rlimit(60)]
#[verifier::spinoff_prover]
pub proof fn lemma_reasons_of_changed_function(s: RiskSignals)
    requires
        s.status != FunctionChangeStatus::Added,
    ensures
        s.cognitive_delta >= 2 ==> gives(
            assessment_of(s).risk.reasons,
            "cognitive_complexity_increased"@,
            "cognitive complexity increased by "@ + decimal(s.cognitive_delta as nat),
            Some(s.cognitive_delta),
        ),
        s.cyclomatic_delta >= 2 ==> gives(
            assessment_of(s).risk.reasons,
            "cyclomatic_complexity_increased"@,
            "cyclomatic complexity increased by "@ + decimal(s.cyclomatic_delta as nat),
            Some(s.cyclomatic_delta),
        ),
        s.cognitive_after >= 15 ==> gives(
            assessment_of(s).risk.reasons,
            "cognitive_complexity_after"@,
            "cognitive complexity is "@ + decimal(s.cognitive_after as nat) + " after the change"@,
            Some(s.cognitive_after as i64),
        ),
        s.churned_lines >= 30 ==> gives(
            assessment_of(s).risk.reasons,
            "high_churn"@,
            decimal(s.churned_lines as nat) + " lines changed inside the function"@,
            Some(s.churned_lines as i64),
        ),
        s.match_confidence == MatchConfidence::IdenticalBody ==> gives(
            assessment_of(s).risk.reasons,
            "match_confidence"@,
            "matched with 0."@ + decimal(9) + " confidence; verify it is the same function"@,
            None,
        ),
        s.match_confidence == MatchConfidence::Positional ==> gives(
            assessment_of(s).risk.reasons,
            "match_confidence"@,
            "matched with 0."@ + decimal(6) + " confidence; verify it is the same function"@,
            None,
        ),
        assessment_of(s).risk.reasons.len() == reasons_expected(s),
{
    let first = contribution(
        tier(s.cognitive_delta as int, 10, 5, 2),
        "cognitive_complexity_increased"@,
        "cognitive complexity increased by "@ + decimal(s.cognitive_delta as nat),
        Some(s.cognitive_delta),
    );
    let second = contribution(
        two_tiers(s.cyclomatic_delta as int, 5, 2),
        "cyclomatic_complexity_increased"@,
        "cyclomatic complexity increased by "@ + decimal(s.cyclomatic_delta as nat),
        Some(s.cyclomatic_delta),
    );
    let third = contribution(
        two_tiers(s.cognitive_after as int, 30, 15),
        "cognitive_complexity_after"@,
        "cognitive complexity is "@ + decimal(s.cognitive_after as nat) + " after the change"@,
        Some(s.cognitive_after as i64),
    );
    let last = churn_rule(s);
    let none = Seq::<Scored>::empty();
    let rules = intrinsic_rules(s);
    assert(rules == first + second + third + last);
    lemma_caveat(rules, s);
    if s.cognitive_delta >= 2 {
        assert(none + first + (second + third + last) =~= rules);
        lemma_cited(none, first, second + third + last, caveat(s));
    }
    if s.cyclomatic_delta >= 2 {
        assert(first + second + (third + last) =~= rules);
        lemma_cited(first, second, third + last, caveat(s));
    }
    if s.cognitive_after >= 15 {
        lemma_cited(first + second, third, last, caveat(s));
    }
    if s.churned_lines >= 30 {
        assert(first + second + third + last + none =~= rules);
        lemma_cited(first + second + third, last, none, caveat(s));
    }
}

/// The reasons of the review priority are those of the risk and one for each
/// exposure: a name that left or joined the exports, five direct importers or
/// more, and production source.
#[verifier::rlimit(60)]
#[verifier::spinoff_prover]
pub proof fn lemma_reasons_of_exposure(s: RiskSignals)
    ensures
        s.exported == ExportStatus::Removed ==> gives(
            assessment_of(s).review_priority.reasons,
            "export_removed"@,
            "no longer exported; every importer of this name breaks"@,
            None,
        ),
        s.exported == ExportStatus::Added ==> gives(
            assessment_of(s).review_priority.reasons,
            "export_added"@,
            "newly part of the module's public surface"@,
            None,
        ),
        s.direct_importers is Some && s.direct_importers->0 >= 5 ==> gives(
            assessment_of(s).review_priority.reasons,
            "containing_module_direct_importers"@,
            "containing module is imported directly by "@ + decimal(s.direct_importers->0 as nat) + " modules"@,
            Some(s.direct_importers->0 as i64),
        ),
        s.classification == FileClassification::Source ==> gives(
            assessment_of(s).review_priority.reasons,
            "production_source"@,
            "production source file"@,
            None,
        ),
        forall|reason: ReasonView| #[trigger]
            assessment_of(s).risk.reasons.contains(reason) ==> assessment_of(s).review_priority.reasons.contains(reason),
        assessment_of(s).review_priority.reasons.len() == assessment_of(s).risk.reasons.len() + (if s.exported == ExportStatus::Unchanged {
            0nat
        } else {
            1
        }) + (match s.direct_importers {
            Some(n) => reached(n as int, 5),
            None => 0,
        }) + (if s.classification == FileClassification::Source {
            1nat
        } else {
            0
        }),
{
    let own = intrinsic_rules(s);
    let exports = export_rule(s);
    let importers = importers_rule(s);
    let source = source_rule(s);
    let none = Seq::<Scored>::empty();
    let rules = own + exposure_rules(s);
    if s.exported != ExportStatus::Unchanged {
        assert(own + exports + (importers + source) =~= rules);
        lemma_cited(own, exports, importers + source, caveat(s));
    }
    if s.direct_importers is Some && s.direct_importers->0 >= 5 {
        assert(own + exports + importers + source =~= rules);
        lemma_cited(own + exports, importers, source, caveat(s));
    }
    if s.classification == FileClassification::Source {
        assert(own + exports + importers + source + none =~= rules);
        lemma_cited(own + exports + importers, source, none, caveat(s));
    }
    let few = assessment_of(s).risk.reasons;
    let all = assessment_of(s).review_priority.reasons;
    assert forall|reason: ReasonView| #[trigger] few.contains(reason) implies all.contains(reason) by {
        let k = choose|k: int| 0 <= k < few.len() && few[k] == reason;
        if k < own.len() {
            assert(all[k] == reason);
        } else {
            assert(all[k + exposure_rules(s).len()] == reason);
        }
    }
}

/// How many reasons the intrinsic model gives: one for each measure that
/// reaches its first threshold, and one for a match that is not exact.
pub open spec fn reasons_expected(s: RiskSignals) -> nat {
    (if s.status == FunctionChangeStatus::Added {
        reached(s.cognitive_after as int, 10) + reached(s.cyclomatic_after as int, 10)
    } else {
        reached(s.cognitive_delta as int, 2) + reached(s.cyclomatic_delta as int, 2) + reached(s.cognitive_after as int, 15)
    }) + reached(s.churned_lines as int, 30) + (if s.match_confidence == MatchConfidence::Exact {
        0nat
    } else {
        1
    })
}

} // verus!
