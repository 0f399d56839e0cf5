//! The hosted-verification wire contract: what a submission carries and what
//! the service reports back. Response-shaped records tolerate additions;
//! request-shaped records stay strict.
use vstd::prelude::*;

verus! {

/// A source file sent inline with a submission.
#[derive(Clone, Debug, PartialEq, Eq)]
pub struct InlineFile {
    pub path: String,
    pub content: String,
}

/// Where the service takes the sources to verify from.
#[derive(Clone, Debug, PartialEq, Eq)]
pub enum VerificationSource {
    Inline { files: Vec<InlineFile> },
    Github { repository: String, reference: String, subdirectory: Option<String> },
}

impl VerificationSource {
    /// A GitHub source: a repository at a reference, optionally below a
    /// subdirectory.
    pub fn github(repository: String, reference: String, subdirectory: Option<String>) -> (r: Self)
        ensures
            r matches VerificationSource::Github { repository: x, reference: y, subdirectory: z } && x
                == repository && y == reference && z == subdirectory,
    {
        VerificationSource::Github { repository, reference, subdirectory }
    }
}

/// What part of the project to verify.
#[derive(Clone, Debug, PartialEq, Eq)]
pub enum VerificationScope {
    Project,
    Change { name: String },
}

/// A verification phase the service can run.
#[derive(Clone, Copy, Debug, PartialEq, Eq, Structural)]
pub enum VerificationPhase {
    Structure,
    Mapping,
    Proofs,
    Intent,
    Scenarios,
    PropertyTests,
    ScenarioTests,
}

/// A request to verify a source.
#[derive(Clone, Debug, PartialEq, Eq)]
pub struct SubmitVerificationRequest {
    pub source: VerificationSource,
    pub scope: VerificationScope,
    pub strict: bool,
    pub phases: Vec<VerificationPhase>,
    pub pbt_seed: Option<u64>,
    pub pbt_examples: Option<u32>,
    /// Verify only these requirements; `None` means every requirement.
    pub requirement_ids: Option<Vec<String>>,
}

/// A request about one job.
#[derive(Clone, Debug, PartialEq, Eq)]
pub struct JobRequest {
    pub job_id: String,
}

/// The state of a verification job.
#[derive(Clone, Copy, Debug, PartialEq, Eq, Structural)]
pub enum VerificationStatus {
    Queued,
    Preparing,
    Running,
    Succeeded,
    Failed,
    Cancelled,
    Expired,
}

/// How far a running job has come.
#[derive(Clone, Debug, PartialEq, Eq)]
pub struct VerificationProgress {
    pub phase: String,
    pub completed: u8,
    pub total: u8,
}

/// Per requirement, the evidence claimed and the evidence earned.
#[derive(Clone, Debug, PartialEq, Eq)]
pub struct VerificationLedger {
    pub version: u32,
    pub change: Option<String>,
    pub entries: Vec<VerificationLedgerEntry>,
}

/// One requirement's line in the ledger.
#[derive(Clone, Debug, PartialEq, Eq)]
pub struct VerificationLedgerEntry {
    pub requirement_id: String,
    pub code: Option<VerificationCodeRef>,
    pub claimed_level: String,
    pub earned_level: String,
    pub file_sha256: Option<String>,
    pub symbol_fingerprints: Vec<VerificationSymbolFingerprint>,
    pub requirement_sha256: Option<String>,
    pub obligations: Vec<VerificationObligation>,
}

/// The code a ledger entry covers.
#[derive(Clone, Debug, PartialEq, Eq)]
pub struct VerificationCodeRef {
    pub file: String,
    pub symbols: Vec<String>,
}

/// Fingerprints of one symbol.
#[derive(Clone, Debug, PartialEq, Eq)]
pub struct VerificationSymbolFingerprint {
    pub symbol: String,
    pub full: String,
    pub code: String,
}

/// One proof obligation and the tool that settled it.
#[derive(Clone, Debug, PartialEq, Eq)]
pub struct VerificationObligation {
    pub description: String,
    pub file: String,
    pub symbols: Vec<String>,
    pub status: String,
    pub tool: String,
    pub tool_version: Option<String>,
}

/// The outcome of one phase.
#[derive(Clone, Copy, Debug, PartialEq, Eq, Structural)]
pub enum VerificationPhaseStatus {
    Pass,
    Fail,
    Skip,
}

/// How serious a reported issue is.
#[derive(Clone, Copy, Debug, PartialEq, Eq, Structural)]
pub enum VerificationIssueSeverity {
    Critical,
    Warning,
    Info,
}

/// Requirement counts of a verified project.
#[derive(Clone, Copy, Debug, PartialEq, Eq, Structural)]
pub struct VerificationSummary {
    pub total_requirements: usize,
    pub proved_requirements: usize,
    pub property_tested_requirements: usize,
    pub spec_tracked_requirements: usize,
}

/// Why a job failed, and whether retrying may help.
#[derive(Clone, Debug, PartialEq, Eq)]
pub struct VerificationJobError {
    pub code: String,
    pub message: String,
    pub retryable: bool,
}

/// How much an explanation should say.
#[derive(Clone, Copy, Debug, PartialEq, Eq, Structural)]
pub enum ExplanationAudience {
    Concise,
    Detailed,
}

/// A request to explain a job's issues.
#[derive(Clone, Debug, PartialEq, Eq)]
pub struct ExplainVerificationRequest {
    pub job_id: String,
    pub issue_indexes: Vec<usize>,
    pub audience: ExplanationAudience,
}

/// An explanation of a job's issues.
#[derive(Clone, Debug, PartialEq, Eq)]
pub struct ExplainVerificationResponse {
    pub contract_version: u32,
    pub job_id: String,
    pub summary: String,
    pub actions: Vec<String>,
}

} // verus!
