//! The requirement mapping: its records, the evidence ladder, and the rules a
//! mapping must satisfy before anything is written from it.
use vstd::prelude::*;

use crate::text::{concat, concat3, copy_string, decimal, decimal_string, owned};

verus! {

broadcast use vstd::string::group_string_axioms;

/// A requirement's link to code: one file and the symbols in it.
#[derive(Debug, Clone, PartialEq, Eq)]
pub struct CodeRef {
    pub file: String,
    pub symbols: Vec<String>,
}

/// A named scenario that covers a requirement.
#[derive(Debug, Clone, PartialEq, Eq)]
pub struct ScenarioRef {
    pub name: String,
    pub kind: Option<ScenarioKind>,
}

#[derive(Debug, Clone, Copy, PartialEq, Eq, Structural)]
pub enum ScenarioKind {
    Formal,
    Test,
    Manual,
}

/// A property-test module linked to a requirement.
#[derive(Debug, Clone, PartialEq, Eq)]
pub struct PropertyRef {
    pub file: String,
    pub symbol: Option<String>,
}

/// One requirement of the mapping.
#[derive(Debug, Clone, PartialEq, Eq)]
pub struct Requirement {
    pub id: String,
    pub capability: String,
    pub requirement: String,
    pub verified: bool,
    pub property_tested: bool,
    pub property: Option<PropertyRef>,
    pub code: Option<CodeRef>,
    pub contract: Option<String>,
    pub claimcheck: Option<bool>,
    pub scenarios: Option<Vec<ScenarioRef>>,
}

/// The project's requirement mapping.
#[derive(Debug, Clone, PartialEq, Eq)]
pub struct Mapping {
    pub version: u32,
    pub requirements: Vec<Requirement>,
}


/// The mathematical model of a [`CodeRef`].
pub struct CodeRefView {
    pub file: Seq<char>,
    pub symbols: Seq<Seq<char>>,
}

/// The mathematical model of a [`ScenarioRef`].
pub struct ScenarioRefView {
    pub name: Seq<char>,
    pub kind: Option<ScenarioKind>,
}

/// The mathematical model of a [`PropertyRef`].
pub struct PropertyRefView {
    pub file: Seq<char>,
    pub symbol: Option<Seq<char>>,
}

/// The mathematical model of a [`Requirement`].
pub struct RequirementView {
    pub id: Seq<char>,
    pub capability: Seq<char>,
    pub requirement: Seq<char>,
    pub verified: bool,
    pub property_tested: bool,
    pub property: Option<PropertyRefView>,
    pub code: Option<CodeRefView>,
    pub contract: Option<Seq<char>>,
    pub claimcheck: Option<bool>,
    pub scenarios: Option<Seq<ScenarioRefView>>,
}

/// The mathematical model of a [`Mapping`].
pub struct MappingView {
    pub version: u32,
    pub requirements: Seq<RequirementView>,
}

/// The view of an optional string.
pub open spec fn opt_view(s: Option<String>) -> Option<Seq<char>> {
    match s {
        Some(v) => Some(v@),
        None => None,
    }
}

impl View for CodeRef {
    type V = CodeRefView;

    open spec fn view(&self) -> CodeRefView {
        CodeRefView { file: self.file@, symbols: strings_view(self.symbols@) }
    }
}

impl View for ScenarioRef {
    type V = ScenarioRefView;

    open spec fn view(&self) -> ScenarioRefView {
        ScenarioRefView { name: self.name@, kind: self.kind }
    }
}

impl View for PropertyRef {
    type V = PropertyRefView;

    open spec fn view(&self) -> PropertyRefView {
        PropertyRefView { file: self.file@, symbol: opt_view(self.symbol) }
    }
}

impl View for Requirement {
    type V = RequirementView;

    open spec fn view(&self) -> RequirementView {
        RequirementView {
            id: self.id@,
            capability: self.capability@,
            requirement: self.requirement@,
            verified: self.verified,
            property_tested: self.property_tested,
            property: match self.property {
                Some(p) => Some(p@),
                None => None,
            },
            code: match self.code {
                Some(c) => Some(c@),
                None => None,
            },
            contract: opt_view(self.contract),
            claimcheck: self.claimcheck,
            scenarios: match self.scenarios {
                Some(v) => Some(v@.map_values(|x: ScenarioRef| x@)),
                None => None,
            },
        }
    }
}

impl View for Mapping {
    type V = MappingView;

    open spec fn view(&self) -> MappingView {
        MappingView {
            version: self.version,
            requirements: requirements_view(self.requirements@),
        }
    }
}

/// The views of a list of strings.
pub open spec fn strings_view(v: Seq<String>) -> Seq<Seq<char>> {
    v.map_values(|s: String| s@)
}

/// The views of a list of requirements.
pub open spec fn requirements_view(v: Seq<Requirement>) -> Seq<RequirementView> {
    v.map_values(|r: Requirement| r@)
}

/// A copy of a list of strings, element for element.
pub fn copy_strings(v: &Vec<String>) -> (r: Vec<String>)
    ensures
        strings_view(r@) == strings_view(v@),
{
    let mut r: Vec<String> = Vec::new();
    let mut i: usize = 0;
    while i < v.len()
        invariant
            i <= v.len(),
            r@.len() == i,
            forall|j: int| 0 <= j < i ==> r@[j]@ == v@[j]@,
        decreases v.len() - i,
    {
        r.push(copy_string(&v[i]));
        i = i + 1;
    }
    assert(strings_view(r@) =~= strings_view(v@));
    r
}

/// A copy of an optional string.
pub fn copy_opt_string(v: &Option<String>) -> (r: Option<String>)
    ensures
        opt_view(r) == opt_view(*v),
{
    match v {
        Some(s) => Some(copy_string(s)),
        None => None,
    }
}

impl CodeRef {
    /// A field-for-field copy.
    pub fn copied(&self) -> (r: Self)
        ensures
            r@ == self@,
    {
        CodeRef { file: copy_string(&self.file), symbols: copy_strings(&self.symbols) }
    }
}

impl PropertyRef {
    /// A field-for-field copy.
    pub fn copied(&self) -> (r: Self)
        ensures
            r@ == self@,
    {
        PropertyRef { file: copy_string(&self.file), symbol: copy_opt_string(&self.symbol) }
    }
}

impl ScenarioRef {
    /// A field-for-field copy.
    pub fn copied(&self) -> (r: Self)
        ensures
            r@ == self@,
    {
        ScenarioRef { name: copy_string(&self.name), kind: self.kind }
    }
}

fn copy_scenarios(v: &Vec<ScenarioRef>) -> (r: Vec<ScenarioRef>)
    ensures
        r@.map_values(|x: ScenarioRef| x@) == v@.map_values(|x: ScenarioRef| x@),
{
    let mut r: Vec<ScenarioRef> = Vec::new();
    let mut i: usize = 0;
    while i < v.len()
        invariant
            i <= v.len(),
            r@.len() == i,
            forall|j: int| 0 <= j < i ==> r@[j]@ == v@[j]@,
        decreases v.len() - i,
    {
        r.push(v[i].copied());
        i = i + 1;
    }
    assert(r@.map_values(|x: ScenarioRef| x@) =~= v@.map_values(|x: ScenarioRef| x@));
    r
}

impl Requirement {
    /// A field-for-field copy.
    pub fn copied(&self) -> (r: Self)
        ensures
            r@ == self@,
    {
        Requirement {
            id: copy_string(&self.id),
            capability: copy_string(&self.capability),
            requirement: copy_string(&self.requirement),
            verified: self.verified,
            property_tested: self.property_tested,
            property: match &self.property {
                Some(p) => Some(p.copied()),
                None => None,
            },
            code: match &self.code {
                Some(c) => Some(c.copied()),
                None => None,
            },
            contract: copy_opt_string(&self.contract),
            claimcheck: self.claimcheck,
            scenarios: match &self.scenarios {
                Some(s) => Some(copy_scenarios(s)),
                None => None,
            },
        }
    }
}

/// The evidence ladder, lowest rung first.
#[derive(Debug, Clone, Copy, PartialEq, Eq, PartialOrd, Ord, Structural)]
pub enum EvidenceLevel {
    /// Nothing links the requirement to code.
    Untracked,
    /// The requirement maps to code; no machine evidence exists.
    SpecTracked,
    /// Scenario coverage exists.
    Tested,
    /// A seeded property run passed.
    PropertyTested,
    /// A formal contract is attached.
    Contracted,
    /// Every obligation was discharged by a prover.
    Proved,
}

impl EvidenceLevel {
    /// The rung's height on the ladder.
    pub open spec fn rank(self) -> nat {
        match self {
            EvidenceLevel::Untracked => 0,
            EvidenceLevel::SpecTracked => 1,
            EvidenceLevel::Tested => 2,
            EvidenceLevel::PropertyTested => 3,
            EvidenceLevel::Contracted => 4,
            EvidenceLevel::Proved => 5,
        }
    }

    /// The rung's wire name.
    pub open spec fn name(self) -> Seq<char> {
        match self {
            EvidenceLevel::Untracked => "none"@,
            EvidenceLevel::SpecTracked => "spec_tracked"@,
            EvidenceLevel::Tested => "tested"@,
            EvidenceLevel::PropertyTested => "property_tested"@,
            EvidenceLevel::Contracted => "contracted"@,
            EvidenceLevel::Proved => "proved"@,
        }
    }

    /// The rung's wire name.
    pub fn as_str(self) -> (s: &'static str)
        ensures
            s@ == self.name(),
    {
        match self {
            EvidenceLevel::Untracked => "none",
            EvidenceLevel::SpecTracked => "spec_tracked",
            EvidenceLevel::Tested => "tested",
            EvidenceLevel::PropertyTested => "property_tested",
            EvidenceLevel::Contracted => "contracted",
            EvidenceLevel::Proved => "proved",
        }
    }

    /// Whether this rung sits strictly below `other`.
    pub fn is_below(self, other: EvidenceLevel) -> (r: bool)
        ensures
            r == (self.rank() < other.rank()),
    {
        self.rank_exec() < other.rank_exec()
    }

    fn rank_exec(self) -> (r: u8)
        ensures
            r as nat == self.rank(),
    {
        match self {
            EvidenceLevel::Untracked => 0,
            EvidenceLevel::SpecTracked => 1,
            EvidenceLevel::Tested => 2,
            EvidenceLevel::PropertyTested => 3,
            EvidenceLevel::Contracted => 4,
            EvidenceLevel::Proved => 5,
        }
    }
}

/// Whether the requirement's fields state the given rung.
pub open spec fn states_level(r: RequirementView, level: EvidenceLevel) -> bool {
    match level {
        EvidenceLevel::Untracked => true,
        EvidenceLevel::SpecTracked => r.code is Some,
        EvidenceLevel::Tested => r.scenarios matches Some(s) && s.len() > 0,
        EvidenceLevel::PropertyTested => r.property_tested,
        EvidenceLevel::Contracted => r.contract is Some,
        EvidenceLevel::Proved => r.verified,
    }
}

/// The rung a requirement claims: the highest one its fields state.
pub open spec fn claimed_level(r: RequirementView) -> EvidenceLevel {
    if r.verified {
        EvidenceLevel::Proved
    } else if r.contract is Some {
        EvidenceLevel::Contracted
    } else if r.property_tested {
        EvidenceLevel::PropertyTested
    } else if r.scenarios matches Some(s) && s.len() > 0 {
        EvidenceLevel::Tested
    } else if r.code is Some {
        EvidenceLevel::SpecTracked
    } else {
        EvidenceLevel::Untracked
    }
}

/// The rung this requirement claims from its mapping fields alone.
pub fn claimed_evidence_level(requirement: &Requirement) -> (level: EvidenceLevel)
    ensures
        level == claimed_level(requirement@),
{
    if requirement.verified {
        return EvidenceLevel::Proved;
    }
    if requirement.contract.is_some() {
        return EvidenceLevel::Contracted;
    }
    if requirement.property_tested {
        return EvidenceLevel::PropertyTested;
    }
    if let Some(scenarios) = &requirement.scenarios {
        if scenarios.len() > 0 {
            return EvidenceLevel::Tested;
        }
    }
    if requirement.code.is_some() {
        return EvidenceLevel::SpecTracked;
    }
    EvidenceLevel::Untracked
}

/// The claimed rung is stated by the requirement, and no rung it states
/// sits above it.
pub proof fn lemma_claim_is_highest_stated_rung(r: RequirementView, level: EvidenceLevel)
    ensures
        states_level(r, claimed_level(r)),
        states_level(r, level) ==> level.rank() <= claimed_level(r).rank(),
{
}

/// The ladder's rungs are strictly ordered from `None` up to `Proved`.
pub proof fn lemma_ladder_is_strict()
    ensures
        EvidenceLevel::Untracked.rank() < EvidenceLevel::SpecTracked.rank(),
        EvidenceLevel::SpecTracked.rank() < EvidenceLevel::Tested.rank(),
        EvidenceLevel::Tested.rank() < EvidenceLevel::PropertyTested.rank(),
        EvidenceLevel::PropertyTested.rank() < EvidenceLevel::Contracted.rank(),
        EvidenceLevel::Contracted.rank() < EvidenceLevel::Proved.rank(),
        forall|a: EvidenceLevel, b: EvidenceLevel| a.rank() == b.rank() ==> a == b,
{
}

#[derive(Debug, Clone, Copy, PartialEq, Eq, Structural)]
pub enum IssueSeverity {
    Critical,
    Warning,
    Info,
}

impl IssueSeverity {
    /// The severity's wire name.
    pub open spec fn name(self) -> Seq<char> {
        match self {
            IssueSeverity::Critical => "CRITICAL"@,
            IssueSeverity::Warning => "WARNING"@,
            IssueSeverity::Info => "INFO"@,
        }
    }

    /// The severity's wire name.
    pub fn as_str(&self) -> (s: &'static str)
        ensures
            s@ == self.name(),
    {
        match self {
            IssueSeverity::Critical => "CRITICAL",
            IssueSeverity::Warning => "WARNING",
            IssueSeverity::Info => "INFO",
        }
    }
}

#[derive(Debug, Clone, Copy, PartialEq, Eq, Structural)]
pub enum PhaseStatus {
    Pass,
    Fail,
    Skip,
}

#[derive(Debug, Clone, Copy, PartialEq, Eq, Structural)]
pub struct PbtRunMeta {
    pub seed: u64,
    pub examples_run: u32,
}

#[derive(Debug, Clone, Copy, PartialEq, Eq, Structural)]
pub struct VerificationSummary {
    pub total_requirements: usize,
    pub proved_requirements: usize,
    pub property_tested_requirements: usize,
    pub spec_tracked_requirements: usize,
}

/// Number of requirements that claim a proof.
pub open spec fn count_proved(reqs: Seq<RequirementView>) -> nat
    decreases reqs.len(),
{
    if reqs.len() == 0 {
        0
    } else {
        count_proved(reqs.drop_last()) + if reqs.last().verified { 1nat } else { 0nat }
    }
}

/// Number of requirements that claim a property test.
pub open spec fn count_property_tested(reqs: Seq<RequirementView>) -> nat
    decreases reqs.len(),
{
    if reqs.len() == 0 {
        0
    } else {
        count_property_tested(reqs.drop_last()) + if reqs.last().property_tested {
            1nat
        } else {
            0nat
        }
    }
}

/// Number of requirements that claim neither a proof nor a property test.
pub open spec fn count_spec_tracked(reqs: Seq<RequirementView>) -> nat
    decreases reqs.len(),
{
    if reqs.len() == 0 {
        0
    } else {
        count_spec_tracked(reqs.drop_last()) + if !reqs.last().verified
            && !reqs.last().property_tested {
            1nat
        } else {
            0nat
        }
    }
}

/// Number of requirements that claim both a proof and a property test.
pub open spec fn count_both_claims(reqs: Seq<RequirementView>) -> nat
    decreases reqs.len(),
{
    if reqs.len() == 0 {
        0
    } else {
        count_both_claims(reqs.drop_last()) + if reqs.last().verified
            && reqs.last().property_tested {
            1nat
        } else {
            0nat
        }
    }
}

proof fn lemma_counts_bounded(reqs: Seq<RequirementView>)
    ensures
        count_proved(reqs) <= reqs.len(),
        count_property_tested(reqs) <= reqs.len(),
        count_spec_tracked(reqs) <= reqs.len(),
    decreases reqs.len(),
{
    if reqs.len() > 0 {
        lemma_counts_bounded(reqs.drop_last());
    }
}

/// Counts the claims of a list of requirements.
pub fn summarize_verification(requirements: &[Requirement]) -> (summary: VerificationSummary)
    ensures
        summary.total_requirements == requirements@.len(),
        summary.proved_requirements == count_proved(requirements_view(requirements@)),
        summary.property_tested_requirements == count_property_tested(
            requirements_view(requirements@),
        ),
        summary.spec_tracked_requirements == count_spec_tracked(requirements_view(requirements@)),
        summary.proved_requirements == requirements_view(requirements@).filter(
            |r: RequirementView| r.verified,
        ).len(),
        summary.property_tested_requirements == requirements_view(requirements@).filter(
            |r: RequirementView| r.property_tested,
        ).len(),
        summary.spec_tracked_requirements == requirements_view(requirements@).filter(
            |r: RequirementView| !r.verified && !r.property_tested,
        ).len(),
{
    proof {
        lemma_summary_counts_flags(requirements_view(requirements@));
    }
    let mut proved: usize = 0;
    let mut tested: usize = 0;
    let mut spec_only: usize = 0;
    let mut i: usize = 0;
    while i < requirements.len()
        invariant
            i <= requirements@.len(),
            proved == count_proved(requirements_view(requirements@).take(i as int)),
            tested == count_property_tested(requirements_view(requirements@).take(i as int)),
            spec_only == count_spec_tracked(requirements_view(requirements@).take(i as int)),
        decreases requirements.len() - i,
    {
        let ghost prefix = requirements_view(requirements@).take(i + 1);
        assert(prefix.drop_last() =~= requirements_view(requirements@).take(i as int));
        proof {
            lemma_counts_bounded(prefix);
        }
        let r = &requirements[i];
        if r.verified {
            proved = proved + 1;
        }
        if r.property_tested {
            tested = tested + 1;
        }
        if !r.verified && !r.property_tested {
            spec_only = spec_only + 1;
        }
        i = i + 1;
    }
    assert(requirements_view(requirements@).take(requirements@.len() as int)
        =~= requirements_view(requirements@));
    VerificationSummary {
        total_requirements: requirements.len(),
        proved_requirements: proved,
        property_tested_requirements: tested,
        spec_tracked_requirements: spec_only,
    }
}

/// The summary's counts are the numbers of requirements whose flags say
/// so: proved ones have `verified` set, property-tested ones have
/// `property_tested` set, and spec-tracked ones have neither.
pub proof fn lemma_summary_counts_flags(reqs: Seq<RequirementView>)
    ensures
        count_proved(reqs) == reqs.filter(|r: RequirementView| r.verified).len(),
        count_property_tested(reqs) == reqs.filter(|r: RequirementView| r.property_tested).len(),
        count_spec_tracked(reqs) == reqs.filter(
            |r: RequirementView| !r.verified && !r.property_tested,
        ).len(),
    decreases reqs.len(),
{
    reveal(Seq::filter);
    if reqs.len() > 0 {
        lemma_summary_counts_flags(reqs.drop_last());
    }
}

/// Every requirement lands in exactly the buckets its claims name: the three
/// counts add up to the total plus the requirements that claim both.
pub proof fn lemma_summary_partitions(reqs: Seq<RequirementView>)
    ensures
        count_proved(reqs) + count_property_tested(reqs) + count_spec_tracked(reqs) == reqs.len()
            + count_both_claims(reqs),
    decreases reqs.len(),
{
    if reqs.len() > 0 {
        lemma_summary_partitions(reqs.drop_last());
    }
}

/// Message for a version outside the supported range.
pub open spec fn version_message(version: u32) -> Seq<char> {
    "mapping version must be 1 or 2, got "@ + decimal(version as nat)
}

/// Message for a version-2 requirement that writes its own evidence claim.
pub open spec fn claim_in_v2_message(id: Seq<char>) -> Seq<char> {
    "requirement '"@ + id
        + "' claims evidence (verified/property_tested) in a version-2 mapping; evidence is derived from the verify ledger, not written by hand"@
}

/// Message for a requirement that claims both a proof and a property test.
pub open spec fn both_claims_message(id: Seq<char>) -> Seq<char> {
    "requirement '"@ + id + "' cannot set both verified and property_tested (v1: mutually exclusive)"@
}

/// Message for a property-tested requirement whose property file is empty.
pub open spec fn empty_property_message(id: Seq<char>) -> Seq<char> {
    "requirement '"@ + id + "' property.file must not be empty"@
}

/// The first rule a requirement breaks, as its message.
pub open spec fn requirement_problem(version: u32, req: RequirementView) -> Option<Seq<char>> {
    if req.id.len() == 0 {
        Some("requirement id must not be empty"@)
    } else if req.capability.len() == 0 {
        Some("requirement capability must not be empty"@)
    } else if req.requirement.len() == 0 {
        Some("requirement text must not be empty"@)
    } else if version >= 2 && (req.verified || req.property_tested) {
        Some(claim_in_v2_message(req.id))
    } else if req.verified && req.property_tested {
        Some(both_claims_message(req.id))
    } else if req.property_tested && (req.property matches Some(p) && p.file.len() == 0) {
        Some(empty_property_message(req.id))
    } else if req.code matches Some(c) && c.file.len() == 0 {
        Some("code.file must not be empty"@)
    } else if req.code matches Some(c) && c.symbols.len() == 0 {
        Some("code.symbols must not be empty"@)
    } else {
        None
    }
}

/// The first problem among the requirements, in order.
pub open spec fn first_problem(version: u32, reqs: Seq<RequirementView>) -> Option<Seq<char>>
    decreases reqs.len(),
{
    if reqs.len() == 0 {
        None
    } else {
        match requirement_problem(version, reqs[0]) {
            Some(p) => Some(p),
            None => first_problem(version, reqs.drop_first()),
        }
    }
}

/// The first rule the mapping breaks, as its message; `None` for a valid
/// mapping.
pub open spec fn mapping_problem(m: MappingView) -> Option<Seq<char>> {
    if m.version != 1 && m.version != 2 {
        Some(version_message(m.version))
    } else {
        first_problem(m.version, m.requirements)
    }
}

/// A mapping is valid when it breaks none of the rules.
pub open spec fn mapping_is_valid(m: MappingView) -> bool {
    mapping_problem(m) is None
}

proof fn lemma_first_problem_none(version: u32, reqs: Seq<RequirementView>)
    ensures
        first_problem(version, reqs) is None <==> forall|i: int|
            0 <= i < reqs.len() ==> (#[trigger] requirement_problem(version, reqs[i])) is None,
    decreases reqs.len(),
{
    if reqs.len() > 0 {
        lemma_first_problem_none(version, reqs.drop_first());
        if first_problem(version, reqs) is None {
            assert forall|i: int| 0 <= i < reqs.len() implies (#[trigger] requirement_problem(
                version,
                reqs[i],
            )) is None by {
                if i > 0 {
                    assert(reqs[i] == reqs.drop_first()[i - 1]);
                }
            }
        } else if requirement_problem(version, reqs[0]) is None {
            let j = choose|j: int|
                0 <= j < reqs.drop_first().len() && (#[trigger] requirement_problem(
                    version,
                    reqs.drop_first()[j],
                )) is Some;
            assert(requirement_problem(version, reqs[j + 1]) is Some);
        }
    }
}

proof fn lemma_first_problem_skip(version: u32, reqs: Seq<RequirementView>, i: int)
    requires
        0 <= i < reqs.len(),
        requirement_problem(version, reqs[i]) is None,
    ensures
        first_problem(version, reqs.skip(i)) == first_problem(version, reqs.skip(i + 1)),
{
    assert(reqs.skip(i)[0] == reqs[i]);
    assert(reqs.skip(i).drop_first() =~= reqs.skip(i + 1));
}

fn requirement_message(version: u32, req: &Requirement) -> (r: Option<String>)
    ensures
        r matches Some(s) ==> requirement_problem(version, req@) == Some(s@),
        r is None ==> requirement_problem(version, req@) is None,
{
    if req.id.as_str().unicode_len() == 0 {
        return Some(owned("requirement id must not be empty"));
    }
    if req.capability.as_str().unicode_len() == 0 {
        return Some(owned("requirement capability must not be empty"));
    }
    if req.requirement.as_str().unicode_len() == 0 {
        return Some(owned("requirement text must not be empty"));
    }
    if version >= 2 && (req.verified || req.property_tested) {
        let s = concat3(
            "requirement '",
            req.id.as_str(),
            "' claims evidence (verified/property_tested) in a version-2 mapping; evidence is derived from the verify ledger, not written by hand",
        );
        return Some(s);
    }
    if req.verified && req.property_tested {
        let s = concat3(
            "requirement '",
            req.id.as_str(),
            "' cannot set both verified and property_tested (v1: mutually exclusive)",
        );
        return Some(s);
    }
    if req.property_tested {
        if let Some(prop) = &req.property {
            if prop.file.as_str().unicode_len() == 0 {
                let s = concat3(
                    "requirement '",
                    req.id.as_str(),
                    "' property.file must not be empty",
                );
                return Some(s);
            }
        }
    }
    if let Some(code) = &req.code {
        if code.file.as_str().unicode_len() == 0 {
            return Some(owned("code.file must not be empty"));
        }
        if code.symbols.len() == 0 {
            return Some(owned("code.symbols must not be empty"));
        }
    }
    None
}

/// Checks the mapping's version and every requirement's fields; the error is
/// the message of the first rule broken.
pub fn validate_mapping(mapping: &Mapping) -> (r: Result<(), String>)
    ensures
        r is Ok <==> mapping_is_valid(mapping@),
        r matches Err(e) ==> mapping_problem(mapping@) == Some(e@),
{
    if mapping.version != 1 && mapping.version != 2 {
        return Err(concat(
            "mapping version must be 1 or 2, got ",
            decimal_string(mapping.version as u64).as_str(),
        ));
    }
    let reqs = &mapping.requirements;
    let mut i: usize = 0;
    assert(requirements_view(reqs@).skip(0) =~= requirements_view(reqs@));
    while i < reqs.len()
        invariant
            i <= reqs@.len(),
            mapping.version == 1 || mapping.version == 2,
            reqs@ == mapping.requirements@,
            first_problem(mapping.version, requirements_view(reqs@)) == first_problem(
                mapping.version,
                requirements_view(reqs@).skip(i as int),
            ),
        decreases reqs.len() - i,
    {
        assert(requirements_view(reqs@).skip(i as int)[0] == reqs@[i as int]@);
        match requirement_message(mapping.version, &reqs[i]) {
            Some(message) => {
                return Err(message);
            },
            None => {
                proof {
                    lemma_first_problem_skip(mapping.version, requirements_view(reqs@), i as int);
                }
            },
        }
        i = i + 1;
    }
    assert(requirements_view(reqs@).skip(i as int) =~= Seq::<RequirementView>::empty());
    Ok(())
}

/// In a valid mapping no requirement claims both a proof and a property test,
/// so the summary's three buckets add up to the total.
pub proof fn lemma_valid_mapping_summary_adds_up(m: MappingView)
    requires
        mapping_is_valid(m),
    ensures
        count_proved(m.requirements) + count_property_tested(m.requirements)
            + count_spec_tracked(m.requirements) == m.requirements.len(),
{
    lemma_first_problem_none(m.version, m.requirements);
    lemma_no_both_claims(m.version, m.requirements);
    lemma_summary_partitions(m.requirements);
}

proof fn lemma_no_both_claims(version: u32, reqs: Seq<RequirementView>)
    requires
        forall|i: int| 0 <= i < reqs.len() ==> (#[trigger] requirement_problem(version, reqs[i])) is None,
    ensures
        count_both_claims(reqs) == 0,
    decreases reqs.len(),
{
    if reqs.len() > 0 {
        assert forall|i: int| 0 <= i < reqs.drop_last().len() implies (#[trigger] requirement_problem(
            version,
            reqs.drop_last()[i],
        )) is None by {
            assert(reqs.drop_last()[i] == reqs[i]);
        }
        lemma_no_both_claims(version, reqs.drop_last());
        assert(requirement_problem(version, reqs[reqs.len() - 1]) is None);
    }
}

/// A version-2 mapping that validates holds no hand-written evidence claim.
pub proof fn lemma_valid_v2_mapping_has_no_claims(m: MappingView, i: int)
    requires
        mapping_is_valid(m),
        m.version == 2,
        0 <= i < m.requirements.len(),
    ensures
        !m.requirements[i].verified,
        !m.requirements[i].property_tested,
{
    lemma_first_problem_none(m.version, m.requirements);
    assert(requirement_problem(m.version, m.requirements[i]) is None);
}

} // verus!
