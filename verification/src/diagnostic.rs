//! Diagnostics about the files of a repository.
use crate::path::RepositoryPath;
use crate::sort::Ordered;
use crate::text;
use vstd::prelude::*;

verus! {

#[derive(Debug, Clone, Copy, PartialEq, Eq, PartialOrd, Ord, Hash, Structural)]
pub enum DiagnosticStage {
    Scan,
    Parse,
    Assemble,
    Cache,
}

#[derive(Debug, Clone, Copy, PartialEq, Eq, PartialOrd, Ord, Hash, Structural)]
pub enum DiagnosticSeverity {
    Warning,
    Error,
}

impl DiagnosticStage {
    /// The place of a stage among the stages.
    pub open spec fn place(self) -> u8 {
        match self {
            DiagnosticStage::Scan => 0,
            DiagnosticStage::Parse => 1,
            DiagnosticStage::Assemble => 2,
            DiagnosticStage::Cache => 3,
        }
    }

    fn rank(self) -> (rank: u8)
        ensures
            rank == self.place(),
    {
        match self {
            DiagnosticStage::Scan => 0,
            DiagnosticStage::Parse => 1,
            DiagnosticStage::Assemble => 2,
            DiagnosticStage::Cache => 3,
        }
    }
}

impl DiagnosticSeverity {
    /// The place of a severity among the severities.
    pub open spec fn place(self) -> u8 {
        match self {
            DiagnosticSeverity::Warning => 0,
            DiagnosticSeverity::Error => 1,
        }
    }

    fn rank(self) -> (rank: u8)
        ensures
            rank == self.place(),
    {
        match self {
            DiagnosticSeverity::Warning => 0,
            DiagnosticSeverity::Error => 1,
        }
    }
}

/// A repository-relative diagnostic. `path` is absent only when an error
/// cannot safely be associated with a valid UTF-8 repository path.
#[derive(Debug, PartialEq, Eq)]
pub struct FileDiagnostic {
    pub path: Option<RepositoryPath>,
    pub stage: DiagnosticStage,
    pub severity: DiagnosticSeverity,
    pub code: String,
    pub message: String,
}

pub fn copy_path(path: &Option<RepositoryPath>) -> (copy: Option<RepositoryPath>)
    ensures
        copy == *path,
{
    match path {
        Some(path) => Some(path.clone()),
        None => None,
    }
}

impl Clone for FileDiagnostic {
    fn clone(&self) -> (copy: FileDiagnostic)
        ensures
            copy == *self,
    {
        FileDiagnostic {
            path: copy_path(&self.path),
            stage: self.stage,
            severity: self.severity,
            code: self.code.clone(),
            message: self.message.clone(),
        }
    }
}

impl FileDiagnostic {
    pub fn new(
        path: Option<RepositoryPath>,
        stage: DiagnosticStage,
        severity: DiagnosticSeverity,
        code: String,
        message: String,
    ) -> (diagnostic: FileDiagnostic)
        ensures
            diagnostic == (FileDiagnostic { path, stage, severity, code, message }),
    {
        FileDiagnostic { path, stage, severity, code, message }
    }

    /// Whether a diagnostic says this.
    pub open spec fn says(
        self,
        path: Option<RepositoryPath>,
        stage: DiagnosticStage,
        severity: DiagnosticSeverity,
        code: Seq<char>,
        message: Seq<char>,
    ) -> bool {
        &&& self.path == path
        &&& self.stage == stage
        &&& self.severity == severity
        &&& self.code@ == code
        &&& self.message@ == message
    }
}

/// Whether an absent or present path comes before another: an absent path first.
pub open spec fn path_before(
    left: Option<RepositoryPath>,
    right: Option<RepositoryPath>,
) -> bool {
    match (left, right) {
        (None, Some(_)) => true,
        (Some(left), Some(right)) => text::before(left@, right@),
        _ => false,
    }
}

pub open spec fn path_same(left: Option<RepositoryPath>, right: Option<RepositoryPath>) -> bool {
    match (left, right) {
        (None, None) => true,
        (Some(left), Some(right)) => left@ == right@,
        _ => false,
    }
}

pub proof fn lemma_path_order(
    a: Option<RepositoryPath>,
    b: Option<RepositoryPath>,
    c: Option<RepositoryPath>,
)
    ensures
        !path_before(a, a),
        path_before(a, b) && path_before(b, c) ==> path_before(a, c),
        path_before(a, b) || path_before(b, a) || path_same(a, b),
        path_before(a, b) ==> !path_same(a, b),
        path_same(a, b) ==> path_before(a, c) == path_before(b, c) && path_before(c, a)
            == path_before(c, b) && path_same(a, c) == path_same(b, c),
{
    if let (Some(x), Some(y)) = (a, b) {
        text::law_text_order(x@, y@, x@);
    }
    if let (Some(x), Some(y), Some(z)) = (a, b, c) {
        text::law_text_order(x@, y@, z@);
    }
    if let Some(x) = a {
        text::law_text_order(x@, x@, x@);
    }
}

fn path_comes_before(left: &Option<RepositoryPath>, right: &Option<RepositoryPath>) -> (before: bool)
    ensures
        before == path_before(*left, *right),
{
    match (left, right) {
        (None, Some(_)) => true,
        (Some(left), Some(right)) => text::text_before(left.as_str(), right.as_str()),
        _ => false,
    }
}

/// Diagnostics are ordered by path, stage, severity, code and message.
impl Ordered for FileDiagnostic {
    open spec fn precedes(self, other: FileDiagnostic) -> bool {
        if !path_same(self.path, other.path) {
            path_before(self.path, other.path)
        } else if self.stage != other.stage {
            self.stage.place() < other.stage.place()
        } else if self.severity != other.severity {
            self.severity.place() < other.severity.place()
        } else if self.code@ != other.code@ {
            text::before(self.code@, other.code@)
        } else {
            text::before(self.message@, other.message@)
        }
    }

    proof fn order_laws(a: FileDiagnostic, b: FileDiagnostic, c: FileDiagnostic) {
        lemma_path_order(a.path, b.path, c.path);
        lemma_path_order(b.path, a.path, c.path);
        lemma_path_order(b.path, c.path, a.path);
        lemma_path_order(a.path, c.path, b.path);
        text::law_text_order(a.code@, b.code@, c.code@);
        text::law_text_order(b.code@, a.code@, c.code@);
        text::law_text_order(b.code@, c.code@, a.code@);
        text::law_text_order(a.message@, b.message@, c.message@);
        text::law_text_order(b.message@, a.message@, c.message@);
        text::law_text_order(b.message@, c.message@, a.message@);
    }

    fn comes_before(&self, other: &FileDiagnostic) -> (before: bool) {
        let first = path_comes_before(&self.path, &other.path);
        let last = path_comes_before(&other.path, &self.path);
        proof {
            lemma_path_order(self.path, other.path, self.path);
            lemma_path_order(other.path, self.path, other.path);
        }
        if first || last {
            return first;
        }
        if self.stage != other.stage {
            return self.stage.rank() < other.stage.rank();
        }
        if self.severity != other.severity {
            return self.severity.rank() < other.severity.rank();
        }
        if !text::same_text(self.code.as_str(), other.code.as_str()) {
            return text::text_before(self.code.as_str(), other.code.as_str());
        }
        text::text_before(self.message.as_str(), other.message.as_str())
    }
}

} // verus!
