//! Rank changed functions by how much review attention they are likely to need.
//!
//! Two additive models score every changed function.
//!
//! *Intrinsic risk* is what the change did to the function's own code:
//! complexity growth, the complexity it ends up with, churn, and the caveat
//! that a match was not exact.
//!
//! *Review priority* starts from intrinsic risk and adds how exposed the
//! function is: whether its name moved in or out of the module's public
//! surface, how many modules import the module containing it, and whether that
//! module is production source.
//!
//! Every rule that applies contributes points and one [`Reason`], and the total
//! is bucketed into a level. An added function has no earlier revision to grow
//! from, so its complexity is scored as the absolute value it starts at.

use vstd::prelude::*;

use crate::analysis::{FunctionChangeStatus, MatchConfidence};
use crate::query::classify::FileClassification;
use crate::text::{decimal, join2, join3, number_text, same_text};

verus! {

/// Identifier of the intrinsic-risk model.
pub const RISK_MODEL: &'static str = "diffscope-risk-v1";

/// Identifier of the review-priority model.
pub const REVIEW_PRIORITY_MODEL: &'static str = "diffscope-review-priority-v1";

/// Score at or above which either model reports a function as high.
pub const HIGH_SCORE: u32 = 5;

/// Score at or above which either model reports a function as medium.
pub const MEDIUM_SCORE: u32 = 2;

/// Largest score the intrinsic-risk model can produce: the top tier of every
/// intrinsic rule.
pub const RISK_MAXIMUM_SCORE: u32 = 3 + 2 + 2 + 1;

/// Largest score the review-priority model can produce: that of the intrinsic
/// model plus the top tier of every exposure signal.
pub const REVIEW_PRIORITY_MAXIMUM_SCORE: u32 = RISK_MAXIMUM_SCORE + 3 + 2 + 1;

#[derive(Debug, Clone, Copy, PartialEq, Eq, PartialOrd, Ord, Structural)]
pub enum RiskLevel {
    Low,
    Medium,
    High,
}

/// The name of a level.
pub open spec fn level_word(level: RiskLevel) -> Seq<char> {
    match level {
        RiskLevel::Low => "low"@,
        RiskLevel::Medium => "medium"@,
        RiskLevel::High => "high"@,
    }
}

/// The level of a name.
pub open spec fn level_named(name: Seq<char>) -> Option<RiskLevel> {
    if name == "low"@ {
        Some(RiskLevel::Low)
    } else if name == "medium"@ {
        Some(RiskLevel::Medium)
    } else if name == "high"@ {
        Some(RiskLevel::High)
    } else {
        None
    }
}

/// Every level is found under its name, and under no other.
pub proof fn lemma_level_round_trip(level: RiskLevel, name: Seq<char>)
    ensures
        level_named(level_word(level)) == Some(level),
        level_named(name) == Some(level) ==> name == level_word(level),
{
    reveal_strlit("low");
    reveal_strlit("medium");
    reveal_strlit("high");
    assert("low"@[0] == 'l' && "medium"@[0] == 'm' && "high"@[0] == 'h');
}

impl RiskLevel {
    #[must_use]
    pub fn as_str(self) -> (r: &'static str)
        ensures
            r@ == level_word(self),
    {
        match self {
            RiskLevel::Low => "low",
            RiskLevel::Medium => "medium",
            RiskLevel::High => "high",
        }
    }

    #[must_use]
    pub fn parse(value: &str) -> (r: Option<Self>)
        ensures
            r == level_named(value@),
    {
        if same_text(value, "low") {
            Some(RiskLevel::Low)
        } else if same_text(value, "medium") {
            Some(RiskLevel::Medium)
        } else if same_text(value, "high") {
            Some(RiskLevel::High)
        } else {
            None
        }
    }
}

/// The measured inputs both models score.
#[derive(Debug, Clone, Copy, PartialEq, Eq, Structural)]
pub struct RiskSignals {
    pub classification: FileClassification,
    pub status: FunctionChangeStatus,
    pub cyclomatic_delta: i64,
    pub cognitive_delta: i64,
    /// Cognitive complexity the function ends up with.
    pub cognitive_after: u32,
    /// Cyclomatic complexity the function ends up with.
    pub cyclomatic_after: u32,
    /// Changed lines inside the function, on either side.
    pub churned_lines: u32,
    pub match_confidence: MatchConfidence,
    pub exported: ExportStatus,
    /// Modules importing the module containing this function directly, when the
    /// import graph is available. `None` means it was not built, not that
    /// nothing imports it.
    pub direct_importers: Option<u32>,
}

/// What the change did to this function's name in the module's exports.
#[derive(Debug, Clone, Copy, PartialEq, Eq, Structural)]
pub enum ExportStatus {
    /// The name was not added to or removed from the public surface.
    Unchanged,
    /// The name is newly exported.
    Added,
    /// The name is no longer exported, which breaks every importer of it.
    Removed,
}

/// One rule's contribution, in structured form.
#[derive(Debug, Clone, PartialEq, Eq)]
pub struct Reason {
    /// Stable `snake_case` identifier of the rule that produced this reason.
    pub code: &'static str,
    /// The rule's explanation, including the measured value.
    pub message: String,
    /// The measured quantity behind the reason, when the rule has one.
    pub value: Option<i64>,
}

/// One model's verdict on a function.
#[derive(Debug, Clone, PartialEq, Eq)]
pub struct ScoreAssessment {
    /// Model identifier, such as `diffscope-risk-v1`.
    pub model: &'static str,
    /// Largest score this model can produce.
    pub maximum_score: u32,
    /// Points this function accumulated.
    pub score: u32,
    /// Bucketed form of `score`.
    pub level: RiskLevel,
    /// Every rule that applied, in rule order.
    pub reasons: Vec<Reason>,
}

/// Both models' verdicts on one changed function.
#[derive(Debug, Clone, PartialEq, Eq)]
pub struct RiskAssessment {
    /// What the change did to the function's own code.
    pub risk: ScoreAssessment,
    /// Intrinsic risk plus how exposed the function is. `reasons` repeats the
    /// intrinsic reasons first, then the exposure reasons, then the match
    /// caveat the intrinsic model carries.
    pub review_priority: ScoreAssessment,
}

/// A reason by what its texts hold.
#[verifier::ext_equal]
pub struct ReasonView {
    pub code: Seq<char>,
    pub message: Seq<char>,
    pub value: Option<i64>,
}

impl View for Reason {
    type V = ReasonView;

    open spec fn view(&self) -> ReasonView {
        ReasonView { code: self.code@, message: self.message@, value: self.value }
    }
}

/// The views of a sequence of reasons.
pub open spec fn reason_views(reasons: Seq<Reason>) -> Seq<ReasonView> {
    reasons.map_values(|r: Reason| r@)
}

/// A verdict by what its texts hold.
#[verifier::ext_equal]
pub struct ScoreView {
    pub model: Seq<char>,
    pub maximum_score: u32,
    pub score: u32,
    pub level: RiskLevel,
    pub reasons: Seq<ReasonView>,
}

impl View for ScoreAssessment {
    type V = ScoreView;

    open spec fn view(&self) -> ScoreView {
        ScoreView {
            model: self.model@,
            maximum_score: self.maximum_score,
            score: self.score,
            level: self.level,
            reasons: reason_views(self.reasons@),
        }
    }
}

/// Both verdicts by what they hold.
#[verifier::ext_equal]
pub struct RiskView {
    pub risk: ScoreView,
    pub review_priority: ScoreView,
}

impl View for RiskAssessment {
    type V = RiskView;

    open spec fn view(&self) -> RiskView {
        RiskView { risk: self.risk@, review_priority: self.review_priority@ }
    }
}

/// What one rule contributes: points and a reason.
#[verifier::ext_equal]
pub struct Scored {
    pub points: nat,
    pub reason: ReasonView,
}

/// The points of a measured value: those of the highest tier it reaches.
pub open spec fn tier(value: int, third: int, second: int, first: int) -> nat {
    if value >= third {
        3
    } else if value >= second {
        2
    } else if value >= first {
        1
    } else {
        0
    }
}

/// The points of a measured value in two tiers.
pub open spec fn two_tiers(value: int, second: int, first: int) -> nat {
    if value >= second {
        2
    } else if value >= first {
        1
    } else {
        0
    }
}

/// The contribution of a rule that measures a value; nothing where it gives no
/// points.
pub open spec fn contribution(points: nat, code: Seq<char>, message: Seq<char>, value: Option<i64>) -> Seq<Scored> {
    if points == 0 {
        Seq::empty()
    } else {
        seq![Scored { points, reason: ReasonView { code, message, value } }]
    }
}

/// The complexity rules of a function that the change added.
pub open spec fn added_rules(s: RiskSignals) -> Seq<Scored> {
    contribution(
        tier(s.cognitive_after as int, 30, 15, 10),
        "added_function_cognitive_complexity"@,
        "new function has cognitive complexity "@ + decimal(s.cognitive_after as nat),
        Some(s.cognitive_after as i64),
    ) + contribution(
        two_tiers(s.cyclomatic_after as int, 20, 10),
        "added_function_cyclomatic_complexity"@,
        "new function has cyclomatic complexity "@ + decimal(s.cyclomatic_after as nat),
        Some(s.cyclomatic_after as i64),
    )
}

/// The complexity rules of a function that already existed.
pub open spec fn changed_rules(s: RiskSignals) -> Seq<Scored> {
    contribution(
        tier(s.cognitive_delta as int, 10, 5, 2),
        "cognitive_complexity_increased"@,
        "cognitive complexity increased by "@ + decimal(s.cognitive_delta as nat),
        Some(s.cognitive_delta),
    ) + contribution(
        two_tiers(s.cyclomatic_delta as int, 5, 2),
        "cyclomatic_complexity_increased"@,
        "cyclomatic complexity increased by "@ + decimal(s.cyclomatic_delta as nat),
        Some(s.cyclomatic_delta),
    ) + contribution(
        two_tiers(s.cognitive_after as int, 30, 15),
        "cognitive_complexity_after"@,
        "cognitive complexity is "@ + decimal(s.cognitive_after as nat) + " after the change"@,
        Some(s.cognitive_after as i64),
    )
}

/// The rules of the intrinsic model that apply, in rule order.
pub open spec fn intrinsic_rules(s: RiskSignals) -> Seq<Scored> {
    (if s.status == FunctionChangeStatus::Added {
        added_rules(s)
    } else {
        changed_rules(s)
    }) + contribution(
        if s.churned_lines >= 30 {
            1
        } else {
            0
        },
        "high_churn"@,
        decimal(s.churned_lines as nat) + " lines changed inside the function"@,
        Some(s.churned_lines as i64),
    )
}

/// The export rule.
pub open spec fn export_rule(s: RiskSignals) -> Seq<Scored> {
    match s.exported {
        ExportStatus::Removed => contribution(3, "export_removed"@, "no longer exported; every importer of this name breaks"@, None),
        ExportStatus::Added => contribution(1, "export_added"@, "newly part of the module's public surface"@, None),
        ExportStatus::Unchanged => Seq::empty(),
    }
}

/// The rule on the modules that import the containing module.
pub open spec fn importers_rule(s: RiskSignals) -> Seq<Scored> {
    match s.direct_importers {
        Some(n) => contribution(
            two_tiers(n as int, 20, 5),
            "containing_module_direct_importers"@,
            "containing module is imported directly by "@ + decimal(n as nat) + " modules"@,
            Some(n as i64),
        ),
        None => Seq::empty(),
    }
}

/// The rules on how far a change reaches beyond the function's body.
pub open spec fn exposure_rules(s: RiskSignals) -> Seq<Scored> {
    export_rule(s) + importers_rule(s) + contribution(
        if s.classification == FileClassification::Source {
            1
        } else {
            0
        },
        "production_source"@,
        "production source file"@,
        None,
    )
}

/// The caveat of a match that is not exact. It carries no points.
pub open spec fn caveat(s: RiskSignals) -> Seq<ReasonView> {
    if s.match_confidence == MatchConfidence::Exact {
        Seq::empty()
    } else {
        seq![
            ReasonView {
                code: "match_confidence"@,
                message: "matched with 0."@ + decimal(s.match_confidence.tenths() as nat)
                    + " confidence; verify it is the same function"@,
                value: None,
            },
        ]
    }
}

/// The points of rules together.
pub open spec fn points_of(rules: Seq<Scored>) -> nat
    decreases rules.len(),
{
    if rules.len() == 0 {
        0
    } else {
        points_of(rules.drop_last()) + rules.last().points
    }
}

/// The reasons of rules.
pub open spec fn reasons_of(rules: Seq<Scored>) -> Seq<ReasonView> {
    rules.map_values(|s: Scored| s.reason)
}

/// The level that a score is bucketed into.
pub open spec fn level_of(score: int) -> RiskLevel {
    if score >= HIGH_SCORE {
        RiskLevel::High
    } else if score >= MEDIUM_SCORE {
        RiskLevel::Medium
    } else {
        RiskLevel::Low
    }
}

/// The verdict of a model on the rules that applied.
pub open spec fn verdict_of(model: Seq<char>, maximum_score: u32, rules: Seq<Scored>, caveat: Seq<ReasonView>) -> ScoreView {
    ScoreView {
        model,
        maximum_score,
        score: points_of(rules) as u32,
        level: level_of(points_of(rules) as int),
        reasons: reasons_of(rules) + caveat,
    }
}

/// The verdicts of both models.
pub open spec fn assessment_of(s: RiskSignals) -> RiskView {
    RiskView {
        risk: verdict_of(RISK_MODEL@, RISK_MAXIMUM_SCORE, intrinsic_rules(s), caveat(s)),
        review_priority: verdict_of(
            REVIEW_PRIORITY_MODEL@,
            REVIEW_PRIORITY_MAXIMUM_SCORE,
            intrinsic_rules(s) + exposure_rules(s),
            caveat(s),
        ),
    }
}

pub(crate) proof fn lemma_points_add(a: Seq<Scored>, b: Seq<Scored>)
    ensures
        points_of(a + b) == points_of(a) + points_of(b),
    decreases b.len(),
{
    if b.len() == 0 {
        assert(a + b =~= a);
    } else {
        lemma_points_add(a, b.drop_last());
        assert((a + b).drop_last() =~= a + b.drop_last());
    }
}

pub(crate) proof fn lemma_contribution_points(points: nat, code: Seq<char>, message: Seq<char>, value: Option<i64>)
    ensures
        points_of(contribution(points, code, message, value)) == points,
{
    reveal_with_fuel(points_of, 2);
    let c = contribution(points, code, message, value);
    if points != 0 {
        assert(c.drop_last() =~= Seq::<Scored>::empty());
    }
}

/// The intrinsic rules give no more points than the model's maximum.
pub proof fn lemma_intrinsic_bounded(s: RiskSignals)
    ensures
        points_of(intrinsic_rules(s)) <= RISK_MAXIMUM_SCORE,
{
    let churn = contribution(
        if s.churned_lines >= 30 {
            1
        } else {
            0
        },
        "high_churn"@,
        decimal(s.churned_lines as nat) + " lines changed inside the function"@,
        Some(s.churned_lines as i64),
    );
    lemma_contribution_points(
        if s.churned_lines >= 30 {
            1
        } else {
            0
        },
        "high_churn"@,
        decimal(s.churned_lines as nat) + " lines changed inside the function"@,
        Some(s.churned_lines as i64),
    );
    if s.status == FunctionChangeStatus::Added {
        lemma_points_add(added_rules(s), churn);
        let a = contribution(
            tier(s.cognitive_after as int, 30, 15, 10),
            "added_function_cognitive_complexity"@,
            "new function has cognitive complexity "@ + decimal(s.cognitive_after as nat),
            Some(s.cognitive_after as i64),
        );
        let b = contribution(
            two_tiers(s.cyclomatic_after as int, 20, 10),
            "added_function_cyclomatic_complexity"@,
            "new function has cyclomatic complexity "@ + decimal(s.cyclomatic_after as nat),
            Some(s.cyclomatic_after as i64),
        );
        lemma_points_add(a, b);
        lemma_contribution_points(
            tier(s.cognitive_after as int, 30, 15, 10),
            "added_function_cognitive_complexity"@,
            "new function has cognitive complexity "@ + decimal(s.cognitive_after as nat),
            Some(s.cognitive_after as i64),
        );
        lemma_contribution_points(
            two_tiers(s.cyclomatic_after as int, 20, 10),
            "added_function_cyclomatic_complexity"@,
            "new function has cyclomatic complexity "@ + decimal(s.cyclomatic_after as nat),
            Some(s.cyclomatic_after as i64),
        );
    } else {
        lemma_points_add(changed_rules(s), churn);
        let a = contribution(
            tier(s.cognitive_delta as int, 10, 5, 2),
            "cognitive_complexity_increased"@,
            "cognitive complexity increased by "@ + decimal(s.cognitive_delta as nat),
            Some(s.cognitive_delta),
        );
        let b = contribution(
            two_tiers(s.cyclomatic_delta as int, 5, 2),
            "cyclomatic_complexity_increased"@,
            "cyclomatic complexity increased by "@ + decimal(s.cyclomatic_delta as nat),
            Some(s.cyclomatic_delta),
        );
        let c = contribution(
            two_tiers(s.cognitive_after as int, 30, 15),
            "cognitive_complexity_after"@,
            "cognitive complexity is "@ + decimal(s.cognitive_after as nat) + " after the change"@,
            Some(s.cognitive_after as i64),
        );
        lemma_points_add(a, b);
        lemma_points_add(a + b, c);
        lemma_contribution_points(
            tier(s.cognitive_delta as int, 10, 5, 2),
            "cognitive_complexity_increased"@,
            "cognitive complexity increased by "@ + decimal(s.cognitive_delta as nat),
            Some(s.cognitive_delta),
        );
        lemma_contribution_points(
            two_tiers(s.cyclomatic_delta as int, 5, 2),
            "cyclomatic_complexity_increased"@,
            "cyclomatic complexity increased by "@ + decimal(s.cyclomatic_delta as nat),
            Some(s.cyclomatic_delta),
        );
        lemma_contribution_points(
            two_tiers(s.cognitive_after as int, 30, 15),
            "cognitive_complexity_after"@,
            "cognitive complexity is "@ + decimal(s.cognitive_after as nat) + " after the change"@,
            Some(s.cognitive_after as i64),
        );
    }
}

/// The exposure rules give at most the points by which the two maxima differ.
pub proof fn lemma_exposure_bounded(s: RiskSignals)
    ensures
        points_of(exposure_rules(s)) <= REVIEW_PRIORITY_MAXIMUM_SCORE - RISK_MAXIMUM_SCORE,
{
    let source = contribution(
        if s.classification == FileClassification::Source {
            1
        } else {
            0
        },
        "production_source"@,
        "production source file"@,
        None,
    );
    lemma_points_add(export_rule(s) + importers_rule(s), source);
    lemma_points_add(export_rule(s), importers_rule(s));
    lemma_contribution_points(
        if s.classification == FileClassification::Source {
            1
        } else {
            0
        },
        "production_source"@,
        "production source file"@,
        None,
    );
    lemma_contribution_points(3, "export_removed"@, "no longer exported; every importer of this name breaks"@, None);
    lemma_contribution_points(1, "export_added"@, "newly part of the module's public surface"@, None);
    match s.direct_importers {
        Some(n) => lemma_contribution_points(
            two_tiers(n as int, 20, 5),
            "containing_module_direct_importers"@,
            "containing module is imported directly by "@ + decimal(n as nat) + " modules"@,
            Some(n as i64),
        ),
        None => {},
    }
}

/// Neither model scores a function above its maximum, exposure only ever adds
/// to the intrinsic score, and each level is that of its score.
pub proof fn lemma_scores_bounded(s: RiskSignals)
    ensures
        assessment_of(s).risk.score <= assessment_of(s).risk.maximum_score,
        assessment_of(s).review_priority.score <= assessment_of(s).review_priority.maximum_score,
        assessment_of(s).risk.score <= assessment_of(s).review_priority.score,
        assessment_of(s).risk.level == level_of(assessment_of(s).risk.score as int),
        assessment_of(s).review_priority.level == level_of(assessment_of(s).review_priority.score as int),
{
    lemma_intrinsic_bounded(s);
    lemma_exposure_bounded(s);
    lemma_points_add(intrinsic_rules(s), exposure_rules(s));
}

/// The reasons of the review priority begin with every rule of the intrinsic
/// model and end with the same caveat.
pub proof fn lemma_reasons_nest(s: RiskSignals)
    ensures
        assessment_of(s).risk.reasons == reasons_of(intrinsic_rules(s)) + caveat(s),
        assessment_of(s).review_priority.reasons == reasons_of(intrinsic_rules(s)) + reasons_of(exposure_rules(s)) + caveat(s),
{
    assert(reasons_of(intrinsic_rules(s) + exposure_rules(s)) =~= reasons_of(intrinsic_rules(s)) + reasons_of(exposure_rules(s)));
}

/// Intrinsic risk is a property of the change to the code alone: exposure does
/// not enter it.
pub proof fn lemma_risk_ignores_exposure(a: RiskSignals, b: RiskSignals)
    requires
        a == (RiskSignals {
            classification: a.classification,
            exported: a.exported,
            direct_importers: a.direct_importers,
            ..b
        }),
    ensures
        assessment_of(a).risk == assessment_of(b).risk,
{
}

/// A score under construction: points accumulated together with the reasons
/// that earned them, in rule order.
struct Tally {
    score: u32,
    reasons: Vec<Reason>,
}

impl Tally {
    spec fn holds(&self, rules: Seq<Scored>) -> bool {
        self.score == points_of(rules) && reason_views(self.reasons@) == reasons_of(rules)
    }

    fn new() -> (r: Tally)
        ensures
            r.holds(Seq::empty()),
    {
        let r = Tally { score: 0, reasons: Vec::new() };
        assert(reason_views(r.reasons@) =~= reasons_of(Seq::<Scored>::empty()));
        r
    }

    fn add(&mut self, points: u32, code: &'static str, message: String, value: Option<i64>, Ghost(rules): Ghost<Seq<Scored>>)
        requires
            old(self).holds(rules),
            points <= 3,
            points_of(rules) <= 100,
        ensures
            final(self).holds(rules + contribution(points as nat, code@, message@, value)),
    {
        if points == 0 {
            assert(rules + contribution(0, code@, message@, value) =~= rules);
            return;
        }
        let ghost one = Scored { points: points as nat, reason: ReasonView { code: code@, message: message@, value } };
        let ghost held = reason_views(self.reasons@);
        self.score = self.score + points;
        let reason = Reason { code, message, value };
        self.reasons.push(reason);
        proof {
            assert(rules + contribution(points as nat, code@, message@, value) =~= rules.push(one));
            assert(rules.push(one).drop_last() =~= rules);
            assert(reason_views(self.reasons@) =~= held.push(one.reason));
            assert(reasons_of(rules.push(one)) =~= reasons_of(rules).push(one.reason));
        }
    }
}

fn tier_points(value: i64, third: i64, second: i64, first: i64) -> (r: u32)
    ensures
        r == tier(value as int, third as int, second as int, first as int),
        r <= 3,
{
    if value >= third {
        3
    } else if value >= second {
        2
    } else if value >= first {
        1
    } else {
        0
    }
}

fn two_tier_points(value: i64, second: i64, first: i64) -> (r: u32)
    ensures
        r == two_tiers(value as int, second as int, first as int),
        r <= 2,
{
    if value >= second {
        2
    } else if value >= first {
        1
    } else {
        0
    }
}

/// A positive number as a numeral.
fn positive_text(value: i64) -> (r: String)
    ensures
        value >= 0 ==> r@ == decimal(value as nat),
{
    if value >= 0 {
        number_text(value as u64)
    } else {
        String::new()
    }
}

/// Complexity of a function the change added.
fn added_complexity(s: &RiskSignals, tally: &mut Tally)
    requires
        old(tally).holds(Seq::empty()),
    ensures
        final(tally).holds(added_rules(*s)),
{
    let points: u32 = tier_points(s.cognitive_after as i64, 30, 15, 10);
    tally.add(
        points,
        "added_function_cognitive_complexity",
        join2("new function has cognitive complexity ", number_text(s.cognitive_after as u64).as_str()),
        Some(s.cognitive_after as i64),
        Ghost(Seq::empty()),
    );
    let ghost first = contribution(
        tier(s.cognitive_after as int, 30, 15, 10),
        "added_function_cognitive_complexity"@,
        "new function has cognitive complexity "@ + decimal(s.cognitive_after as nat),
        Some(s.cognitive_after as i64),
    );
    assert(Seq::<Scored>::empty() + first =~= first);
    proof {
        lemma_contribution_points(
            points as nat,
            "added_function_cognitive_complexity"@,
            "new function has cognitive complexity "@ + decimal(s.cognitive_after as nat),
            Some(s.cognitive_after as i64),
        );
    }
    let points: u32 = two_tier_points(s.cyclomatic_after as i64, 20, 10);
    tally.add(
        points,
        "added_function_cyclomatic_complexity",
        join2("new function has cyclomatic complexity ", number_text(s.cyclomatic_after as u64).as_str()),
        Some(s.cyclomatic_after as i64),
        Ghost(first),
    );
}

/// Complexity the change added to a function that already existed.
fn changed_complexity(s: &RiskSignals, tally: &mut Tally)
    requires
        old(tally).holds(Seq::empty()),
    ensures
        final(tally).holds(changed_rules(*s)),
{
    let ghost a = contribution(
        tier(s.cognitive_delta as int, 10, 5, 2),
        "cognitive_complexity_increased"@,
        "cognitive complexity increased by "@ + decimal(s.cognitive_delta as nat),
        Some(s.cognitive_delta),
    );
    let ghost b = contribution(
        two_tiers(s.cyclomatic_delta as int, 5, 2),
        "cyclomatic_complexity_increased"@,
        "cyclomatic complexity increased by "@ + decimal(s.cyclomatic_delta as nat),
        Some(s.cyclomatic_delta),
    );
    let points: u32 = tier_points(s.cognitive_delta, 10, 5, 2);
    let message = join2("cognitive complexity increased by ", positive_text(s.cognitive_delta).as_str());
    let ghost written = message@;
    tally.add(points, "cognitive_complexity_increased", message, Some(s.cognitive_delta), Ghost(Seq::empty()));
    proof {
        assert(contribution(points as nat, "cognitive_complexity_increased"@, written, Some(s.cognitive_delta)) == a);
        assert(Seq::<Scored>::empty() + a =~= a);
        lemma_contribution_points(points as nat, "cognitive_complexity_increased"@, written, Some(s.cognitive_delta));
    }
    let points: u32 = two_tier_points(s.cyclomatic_delta, 5, 2);
    let message = join2("cyclomatic complexity increased by ", positive_text(s.cyclomatic_delta).as_str());
    let ghost written = message@;
    tally.add(points, "cyclomatic_complexity_increased", message, Some(s.cyclomatic_delta), Ghost(a));
    proof {
        assert(contribution(points as nat, "cyclomatic_complexity_increased"@, written, Some(s.cyclomatic_delta)) == b);
        lemma_contribution_points(points as nat, "cyclomatic_complexity_increased"@, written, Some(s.cyclomatic_delta));
        lemma_points_add(a, b);
    }
    let points: u32 = two_tier_points(s.cognitive_after as i64, 30, 15);
    tally.add(
        points,
        "cognitive_complexity_after",
        join3("cognitive complexity is ", number_text(s.cognitive_after as u64).as_str(), " after the change"),
        Some(s.cognitive_after as i64),
        Ghost(a + b),
    );
}

/// Score what the change did to the function's own code.
fn intrinsic(s: &RiskSignals) -> (r: Tally)
    ensures
        r.holds(intrinsic_rules(*s)),
{
    let mut tally = Tally::new();
    let ghost rules = if s.status == FunctionChangeStatus::Added {
        added_rules(*s)
    } else {
        changed_rules(*s)
    };
    if s.status == FunctionChangeStatus::Added {
        added_complexity(s, &mut tally);
    } else {
        changed_complexity(s, &mut tally);
    }
    proof {
        lemma_intrinsic_bounded(*s);
        lemma_points_add(
            rules,
            contribution(
                if s.churned_lines >= 30 {
                    1
                } else {
                    0
                },
                "high_churn"@,
                decimal(s.churned_lines as nat) + " lines changed inside the function"@,
                Some(s.churned_lines as i64),
            ),
        );
    }
    let points: u32 = if s.churned_lines >= 30 {
        1
    } else {
        0
    };
    tally.add(
        points,
        "high_churn",
        join2(number_text(s.churned_lines as u64).as_str(), " lines changed inside the function"),
        Some(s.churned_lines as i64),
        Ghost(rules),
    );
    tally
}

/// Score how far the function's change reaches beyond its own body, on top of
/// what it did to the code.
fn exposure(s: &RiskSignals, tally: &mut Tally)
    requires
        old(tally).holds(intrinsic_rules(*s)),
    ensures
        final(tally).holds(intrinsic_rules(*s) + exposure_rules(*s)),
{
    let ghost base = intrinsic_rules(*s);
    let ghost source = contribution(
        if s.classification == FileClassification::Source {
            1
        } else {
            0
        },
        "production_source"@,
        "production source file"@,
        None,
    );
    proof {
        lemma_intrinsic_bounded(*s);
        lemma_exposure_bounded(*s);
        lemma_points_add(base, export_rule(*s));
        lemma_points_add(base + export_rule(*s), importers_rule(*s));
        lemma_points_add(export_rule(*s), importers_rule(*s));
        lemma_points_add(export_rule(*s) + importers_rule(*s), source);
    }
    match s.exported {
        ExportStatus::Removed => {
            tally.add(3, "export_removed", "no longer exported; every importer of this name breaks".to_owned(), None, Ghost(base));
        },
        ExportStatus::Added => {
            tally.add(1, "export_added", "newly part of the module's public surface".to_owned(), None, Ghost(base));
        },
        ExportStatus::Unchanged => {
            assert(base + export_rule(*s) =~= base);
        },
    }
    match s.direct_importers {
        Some(n) => {
            let points: u32 = two_tier_points(n as i64, 20, 5);
            tally.add(
                points,
                "containing_module_direct_importers",
                join3("containing module is imported directly by ", number_text(n as u64).as_str(), " modules"),
                Some(n as i64),
                Ghost(base + export_rule(*s)),
            );
        },
        None => {
            assert(base + export_rule(*s) + importers_rule(*s) =~= base + export_rule(*s));
        },
    }
    let points: u32 = if s.classification.is_source() {
        1
    } else {
        0
    };
    tally.add(
        points,
        "production_source",
        "production source file".to_owned(),
        None,
        Ghost(base + export_rule(*s) + importers_rule(*s)),
    );
    assert(base + export_rule(*s) + importers_rule(*s) + source =~= base + exposure_rules(*s));
}

fn push_caveat(s: &RiskSignals, reasons: &mut Vec<Reason>)
    ensures
        reason_views(final(reasons)@) == reason_views(old(reasons)@) + caveat(*s),
{
    let ghost held = reason_views(reasons@);
    if s.match_confidence != MatchConfidence::Exact {
        let reason = Reason {
            code: "match_confidence",
            message: join3(
                "matched with 0.",
                number_text(s.match_confidence.as_tenths() as u64).as_str(),
                " confidence; verify it is the same function",
            ),
            value: None,
        };
        let ghost one = reason@;
        reasons.push(reason);
        assert(reason_views(reasons@) =~= held + seq![one]);
    } else {
        assert(held + caveat(*s) =~= held);
    }
}

/// The level that a score is bucketed into.
pub fn level_for(score: u32) -> (r: RiskLevel)
    ensures
        r == level_of(score as int),
{
    if score >= HIGH_SCORE {
        RiskLevel::High
    } else if score >= MEDIUM_SCORE {
        RiskLevel::Medium
    } else {
        RiskLevel::Low
    }
}

/// Score one changed function with both models.
#[must_use]
pub fn assess(signals: &RiskSignals) -> (r: RiskAssessment)
    ensures
        r@ == assessment_of(*signals),
        r.risk.score <= RISK_MAXIMUM_SCORE,
        r.review_priority.score <= REVIEW_PRIORITY_MAXIMUM_SCORE,
{
    proof {
        lemma_scores_bounded(*signals);
        lemma_intrinsic_bounded(*signals);
        lemma_exposure_bounded(*signals);
        lemma_points_add(intrinsic_rules(*signals), exposure_rules(*signals));
    }
    let Tally { score, reasons } = intrinsic(signals);
    let mut own_reasons = reasons;
    let own_score: u32 = score;
    let mut whole = intrinsic(signals);
    exposure(signals, &mut whole);
    let Tally { score, reasons } = whole;
    let mut all_reasons = reasons;
    push_caveat(signals, &mut own_reasons);
    push_caveat(signals, &mut all_reasons);
    RiskAssessment {
        risk: ScoreAssessment {
            model: RISK_MODEL,
            maximum_score: RISK_MAXIMUM_SCORE,
            score: own_score,
            level: level_for(own_score),
            reasons: own_reasons,
        },
        review_priority: ScoreAssessment {
            model: REVIEW_PRIORITY_MODEL,
            maximum_score: REVIEW_PRIORITY_MAXIMUM_SCORE,
            score,
            level: level_for(score),
            reasons: all_reasons,
        },
    }
}

} // verus!
