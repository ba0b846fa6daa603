//! The decisions of indexing a repository: when a cached index is good, what
//! becomes of every scanned file, and what is reported and cached in the end.
//!
//! Scanning, parsing and the store are driven by the caller.
use crate::app::{Progress, ProgressPhase};
use crate::assembler;
use crate::assembler::{AssemblyError, IndexAssembler, RepositorySpec};
use crate::diagnostic::{DiagnosticSeverity, DiagnosticStage, FileDiagnostic};
use crate::digest;
use crate::ir;
use crate::ir::RepositoryModel;
use crate::parser::{ParsedFile, ParserAdapter};
use crate::path::RepositoryPath;
use crate::registry;
use crate::registry::{ParserRegistry, RegistryError, Revision};
use crate::scanner;
use crate::scanner::{RepositoryScanner, ScanConfig, ScanError, ScanResult, ScannedFile};
use crate::schema::SCHEMA_VERSION;
use crate::sort;
use crate::store::{CachedIndex, IndexStoreError};
use crate::text;
use vstd::prelude::*;

verus! {

#[derive(Debug, Clone, Copy, PartialEq, Eq, Structural)]
pub struct IndexCounts {
    pub scanned_files: u64,
    pub parsed_files: u64,
    pub skipped_files: u64,
}

impl Default for IndexCounts {
    fn default() -> (counts: IndexCounts)
        ensures
            counts == (IndexCounts { scanned_files: 0, parsed_files: 0, skipped_files: 0 }),
    {
        IndexCounts { scanned_files: 0, parsed_files: 0, skipped_files: 0 }
    }
}

#[derive(Debug, Clone, PartialEq, Eq)]
pub struct IndexReport {
    pub model: RepositoryModel,
    pub counts: IndexCounts,
    pub diagnostics: Vec<FileDiagnostic>,
    pub cache_hit: bool,
}

#[derive(Debug, Clone, PartialEq, Eq)]
pub enum IndexError {
    Scan(ScanError),
    Cancelled,
}

impl IndexError {
    /// The error of an indexing whose scan failed.
    pub fn from_scan(error: ScanError) -> (failure: IndexError)
        ensures
            failure == match error {
                ScanError::Cancelled => IndexError::Cancelled,
                _ => IndexError::Scan(error),
            },
    {
        match error {
            ScanError::Cancelled => IndexError::Cancelled,
            error => IndexError::Scan(error),
        }
    }

    /// What the error tells a reader.
    pub open spec fn message_text(self) -> Seq<char> {
        match self {
            IndexError::Scan(error) => error.message_text(),
            IndexError::Cancelled => "repository indexing was cancelled"@,
        }
    }

    pub fn to_string(&self) -> (message: String)
        ensures
            message@ == self.message_text(),
    {
        match self {
            IndexError::Scan(error) => error.to_string(),
            IndexError::Cancelled => "repository indexing was cancelled".to_owned(),
        }
    }
}

/// The languages and revisions of the parsers, each behind its length.
pub open spec fn with_revisions(bytes: Seq<u8>, revisions: Seq<Revision>) -> Seq<u8>
    decreases revisions.len(),
{
    if revisions.len() == 0 {
        bytes
    } else {
        with_revisions(bytes, revisions.drop_last()) + digest::component(
            revisions.last().language@,
        ) + digest::component(revisions.last().revision@)
    }
}

/// The bytes that the fingerprint of an index is taken of: the fingerprint of the
/// scan, the revision of the cache and the revisions of the parsers.
pub open spec fn index_bytes(
    scan_fingerprint: Seq<char>,
    cache_revision: Seq<char>,
    revisions: Seq<Revision>,
) -> Seq<u8> {
    with_revisions(
        vstd::utf8::encode_utf8("codeatlas-index-fingerprint-v1"@) + digest::component(
            scan_fingerprint,
        ) + digest::component(cache_revision),
        revisions,
    )
}

/// Builds the bytes that the fingerprint of an index is taken of.
pub fn index_fingerprint_bytes(
    scan_fingerprint: &str,
    cache_revision: &str,
    revisions: &Vec<Revision>,
) -> (bytes: Vec<u8>)
    ensures
        bytes@ == index_bytes(scan_fingerprint@, cache_revision@, revisions@),
{
    let mut bytes: Vec<u8> = Vec::new();
    digest::push_bytes(&mut bytes, "codeatlas-index-fingerprint-v1".as_bytes());
    assert(bytes@ =~= vstd::utf8::encode_utf8("codeatlas-index-fingerprint-v1"@));
    digest::push_component(&mut bytes, scan_fingerprint);
    digest::push_component(&mut bytes, cache_revision);
    let ghost head = bytes@;
    let mut index: usize = 0;
    while index < revisions.len()
        invariant
            index <= revisions@.len(),
            bytes@ == with_revisions(head, revisions@.take(index as int)),
        decreases revisions@.len() - index,
    {
        assert(revisions@.take(index as int + 1).drop_last() =~= revisions@.take(index as int));
        digest::push_component(&mut bytes, revisions[index].language.as_str());
        digest::push_component(&mut bytes, revisions[index].revision.as_str());
        index = index + 1;
    }
    assert(revisions@.take(revisions@.len() as int) =~= revisions@);
    bytes
}

/// The fingerprint of an index.
pub fn index_fingerprint(
    scan_fingerprint: &str,
    cache_revision: &str,
    revisions: &Vec<Revision>,
) -> (fingerprint: String)
    ensures
        fingerprint@ == digest::hex_of_bytes(
            digest::sha256_digest(
                index_bytes(scan_fingerprint@, cache_revision@, revisions@),
            ),
        ),
{
    let bytes = index_fingerprint_bytes(scan_fingerprint, cache_revision, revisions);
    let hash = digest::sha256(bytes.as_slice());
    digest::hex_of(hash.as_slice())
}

/// The sum of two counts, as far as it can be counted.
pub open spec fn counted_sum(left: u64, right: u64) -> u64 {
    if left + right <= u64::MAX {
        (left + right) as u64
    } else {
        u64::MAX
    }
}

/// Whether a cached index is the index of an unchanged repository.
pub open spec fn still_good(
    cached: CachedIndex,
    fingerprint: Seq<char>,
    repository: RepositorySpec,
) -> bool {
    &&& cached.fingerprint@ == fingerprint
    &&& cached.model.repository_id == repository.identity()
    &&& cached.model.name@ == repository.name@
}

/// The report of a run that is answered from a cached index.
pub open spec fn answers_from(run: IndexRun, cached: CachedIndex, report: IndexReport) -> bool {
    &&& report.model == cached.model
    &&& report.counts == (IndexCounts {
        scanned_files: run.scanned_files,
        parsed_files: cached.parsed_files,
        skipped_files: counted_sum(run.scan_skipped_files, cached.skipped_files),
    })
    &&& report.diagnostics@ == sort::stable_sorted(run.diagnostics@ + cached.diagnostics@)
    &&& report.cache_hit
}

/// The report of a run that has gone through.
pub open spec fn finishes(run: IndexRun, report: IndexReport) -> bool {
    &&& model_sorted(run.model, report.model)
    &&& report.diagnostics@ == sort::stable_sorted(run.diagnostics@)
    &&& report.counts == (IndexCounts {
        scanned_files: run.scanned_files,
        parsed_files: run.parsed_files,
        skipped_files: counted_sum(run.scan_skipped_files, run.parse_skipped_files),
    })
    &&& !report.cache_hit
}

/// The record of a report for the cache.
pub open spec fn records(
    report: IndexReport,
    fingerprint: String,
    parse_skipped_files: u64,
    cached: CachedIndex,
) -> bool {
    &&& cached.fingerprint == fingerprint
    &&& ir::same_model(cached.model, report.model)
    &&& cached.parsed_files == report.counts.parsed_files
    &&& cached.skipped_files == parse_skipped_files
    &&& cached.diagnostics@ == cached_diagnostics(report.diagnostics@)
}

/// What reading the cache leads to.
#[derive(Debug, Clone, PartialEq, Eq)]
pub enum CacheDecision {
    /// The cached index is good: the report is ready.
    Ready(IndexReport),
    /// The repository has to be parsed.
    Parse,
    /// Indexing was cancelled.
    Cancelled,
}

/// An indexing in progress, from the end of the scan on.
#[derive(Debug)]
pub struct IndexRun {
    pub repository: RepositorySpec,
    pub fingerprint: String,
    pub scanned_files: u64,
    pub scan_skipped_files: u64,
    pub parse_skipped_files: u64,
    pub parsed_files: u64,
    pub diagnostics: Vec<FileDiagnostic>,
    pub model: RepositoryModel,
    pub reason: String,
}

/// What a step leaves of a run as it was.
pub open spec fn same_run(before: IndexRun, after: IndexRun) -> bool {
    &&& after.repository == before.repository
    &&& after.fingerprint == before.fingerprint
    &&& after.scanned_files == before.scanned_files
    &&& after.scan_skipped_files == before.scan_skipped_files
    &&& after.reason == before.reason
}

/// A diagnostic is added at the end.
pub open spec fn reported(
    before: Seq<FileDiagnostic>,
    after: Seq<FileDiagnostic>,
    path: Option<RepositoryPath>,
    stage: DiagnosticStage,
    severity: DiagnosticSeverity,
    code: Seq<char>,
    message: Seq<char>,
) -> bool {
    &&& after.len() == before.len() + 1
    &&& after.drop_last() == before
    &&& after.last().says(path, stage, severity, code, message)
}

/// The records of a file are added to a model.
pub open spec fn model_extended(
    before: RepositoryModel,
    after: RepositoryModel,
    context: assembler::FileContext,
) -> bool {
    &&& after.schema_version == before.schema_version
    &&& after.repository_id == before.repository_id
    &&& after.name == before.name
    &&& after.files@ == before.files@.push(context.file())
    &&& after.modules@ == before.modules@ + context.modules()
    &&& after.symbols@ == before.symbols@ + context.symbols()
    &&& after.imports@ == before.imports@ + context.imports()
    &&& after.references@ == before.references@ + context.references()
    &&& after.calls@ == before.calls@ + context.calls()
    &&& after.entry_points@ == before.entry_points@ + context.entry_points()
}

/// A model whose lists are those of another one in order.
pub open spec fn model_sorted(before: RepositoryModel, after: RepositoryModel) -> bool {
    &&& after.schema_version == before.schema_version
    &&& after.repository_id == before.repository_id
    &&& after.name == before.name
    &&& after.files@ == sort::stable_sorted(before.files@)
    &&& after.modules@ == sort::stable_sorted(before.modules@)
    &&& after.symbols@ == sort::stable_sorted(before.symbols@)
    &&& after.imports@ == sort::stable_sorted(before.imports@)
    &&& after.references@ == sort::stable_sorted(before.references@)
    &&& after.calls@ == sort::stable_sorted(before.calls@)
    &&& after.entry_points@ == sort::stable_sorted(before.entry_points@)
}

impl IndexRun {
    /// Whether no file was parsed yet: the model is empty and carries the identity
    /// and the name of the repository.
    pub open spec fn fresh(self) -> bool {
        &&& self.parse_skipped_files == 0
        &&& self.parsed_files == 0
        &&& self.reason@ == assembler::unresolved_reason()
        &&& self.model.schema_version.value == SCHEMA_VERSION
        &&& self.model.repository_id == self.repository.identity()
        &&& self.model.name == self.repository.name
        &&& self.model.files@.len() == 0
        &&& self.model.modules@.len() == 0
        &&& self.model.symbols@.len() == 0
        &&& self.model.imports@.len() == 0
        &&& self.model.references@.len() == 0
        &&& self.model.calls@.len() == 0
        &&& self.model.entry_points@.len() == 0
    }

    /// Starts from the result of a scan.
    fn begin(
        repository: RepositorySpec,
        fingerprint: String,
        scanned_files: u64,
        scan_skipped_files: u64,
        diagnostics: Vec<FileDiagnostic>,
    ) -> (run: IndexRun)
        ensures
            run.repository == repository,
            run.fingerprint == fingerprint,
            run.scanned_files == scanned_files,
            run.scan_skipped_files == scan_skipped_files,
            run.fresh(),
            run.diagnostics@ == diagnostics@,
    {
        let model = RepositoryModel::empty(repository.repository_id(), repository.name.clone());
        IndexRun {
            repository,
            fingerprint,
            scanned_files,
            scan_skipped_files,
            parse_skipped_files: 0,
            parsed_files: 0,
            diagnostics,
            model,
            reason: "cross-file and external resolution is not performed".to_owned(),
        }
    }

    /// The key of the record of this repository in the cache.
    pub fn cache_key(&self) -> (key: String)
        ensures
            key@ == crate::id::id_text(self.repository.identity().value),
    {
        let id = self.repository.repository_id();
        id.to_string()
    }

    /// Decides on what reading the cache returned. A record of an unchanged
    /// repository is reported with the diagnostics of scan and record together; a
    /// failure is reported and the repository parsed.
    pub fn on_cache_read(
        &mut self,
        read: Result<Option<CachedIndex>, IndexStoreError>,
    ) -> (decision: CacheDecision)
        ensures
            same_run(*old(self), *final(self)),
            final(self).model == old(self).model,
            final(self).parsed_files == old(self).parsed_files,
            final(self).parse_skipped_files == old(self).parse_skipped_files,
            match read {
                Ok(Some(cached)) => if still_good(
                    cached,
                    old(self).fingerprint@,
                    old(self).repository,
                ) {
                    decision matches CacheDecision::Ready(report) && answers_from(
                        *old(self),
                        cached,
                        report,
                    )
                } else {
                    decision is Parse && final(self).diagnostics@ == old(self).diagnostics@
                },
                Ok(None) => decision is Parse && final(self).diagnostics@
                    == old(self).diagnostics@,
                Err(IndexStoreError::Cancelled) => decision is Cancelled
                    && final(self).diagnostics@ == old(self).diagnostics@,
                Err(error) => decision is Parse && reported(
                    old(self).diagnostics@,
                    final(self).diagnostics@,
                    None,
                    DiagnosticStage::Cache,
                    DiagnosticSeverity::Warning,
                    "cache_read_error"@,
                    error.message_text(),
                ),
            },
    {
        match read {
            Ok(Some(cached)) => {
                let good = text::same_text(cached.fingerprint.as_str(), self.fingerprint.as_str())
                    && cached.model.repository_id == self.repository.repository_id()
                    && text::same_text(cached.model.name.as_str(), self.repository.name.as_str());
                if !good {
                    return CacheDecision::Parse;
                }
                let mut diagnostics: Vec<FileDiagnostic> = Vec::new();
                let mut cached_diagnostics = cached.diagnostics;
                diagnostics.append(&mut self.diagnostics);
                diagnostics.append(&mut cached_diagnostics);
                assert(diagnostics@ =~= old(self).diagnostics@ + cached.diagnostics@);
                sort::stable_sort(&mut diagnostics);
                CacheDecision::Ready(
                    IndexReport {
                        model: cached.model,
                        counts: IndexCounts {
                            scanned_files: self.scanned_files,
                            parsed_files: cached.parsed_files,
                            skipped_files: self.scan_skipped_files.saturating_add(
                                cached.skipped_files,
                            ),
                        },
                        diagnostics,
                        cache_hit: true,
                    },
                )
            },
            Ok(None) => CacheDecision::Parse,
            Err(IndexStoreError::Cancelled) => CacheDecision::Cancelled,
            Err(error) => {
                self.diagnostics.push(
                    FileDiagnostic::new(
                        None,
                        DiagnosticStage::Cache,
                        DiagnosticSeverity::Warning,
                        "cache_read_error".to_owned(),
                        error.to_string(),
                    ),
                );
                assert(self.diagnostics@.drop_last() =~= old(self).diagnostics@);
                CacheDecision::Parse
            },
        }
    }

    /// Takes note of the result of parsing one file, and hands on what is to be
    /// assembled. A failure is reported and the file counted as skipped.
    pub fn on_parsed(&mut self, outcome: Result<ParsedFile, RegistryError>) -> (parsed: Option<
        ParsedFile,
    >)
        ensures
            same_run(*old(self), *final(self)),
            final(self).model == old(self).model,
            match outcome {
                Ok(file) => {
                    &&& parsed == Some(file)
                    &&& final(self).parsed_files == scanner::one_more(old(self).parsed_files)
                    &&& final(self).parse_skipped_files == old(self).parse_skipped_files
                    &&& final(self).diagnostics@ == old(self).diagnostics@
                },
                Err(error) => {
                    &&& parsed is None
                    &&& final(self).parsed_files == old(self).parsed_files
                    &&& final(self).parse_skipped_files == scanner::one_more(
                        old(self).parse_skipped_files,
                    )
                    &&& reported(
                        old(self).diagnostics@,
                        final(self).diagnostics@,
                        Some(error.concerns()),
                        DiagnosticStage::Parse,
                        DiagnosticSeverity::Error,
                        error.code_text(),
                        error.message_text(),
                    )
                },
            },
    {
        match outcome {
            Ok(file) => {
                self.parsed_files = self.parsed_files.saturating_add(1);
                Some(file)
            },
            Err(error) => {
                self.parse_skipped_files = self.parse_skipped_files.saturating_add(1);
                self.diagnostics.push(
                    FileDiagnostic::new(
                        Some(error.path().clone()),
                        DiagnosticStage::Parse,
                        DiagnosticSeverity::Error,
                        error.code().to_owned(),
                        error.to_string(),
                    ),
                );
                assert(self.diagnostics@.drop_last() =~= old(self).diagnostics@);
                None
            },
        }
    }

    /// Assembles one parsed file into the model. A file that cannot be assembled
    /// is reported and counted as skipped; the other files are not affected.
    pub fn on_assemble(&mut self, parsed: &ParsedFile)
        ensures
            same_run(*old(self), *final(self)),
            final(self).parsed_files == old(self).parsed_files,
            if assembler::assemblable(*parsed) {
                &&& final(self).parse_skipped_files == old(self).parse_skipped_files
                &&& final(self).diagnostics@ == old(self).diagnostics@
                &&& model_extended(
                    old(self).model,
                    final(self).model,
                    assembler::context_of(old(self).repository, *parsed, old(self).reason),
                )
            } else {
                &&& final(self).parse_skipped_files == scanner::one_more(
                    old(self).parse_skipped_files,
                )
                &&& final(self).model == old(self).model
                &&& exists|error: AssemblyError|
                    #[trigger] assembler::file_refused(*parsed, error) && reported(
                        old(self).diagnostics@,
                        final(self).diagnostics@,
                        Some(parsed.path),
                        DiagnosticStage::Assemble,
                        DiagnosticSeverity::Error,
                        "assembly_error"@,
                        error.message_text(),
                    )
            },
    {
        let assembler = IndexAssembler::new(self.repository.clone());
        match assembler.assemble_file(parsed, &self.reason, &mut self.model) {
            Ok(()) => {},
            Err(error) => {
                self.parse_skipped_files = self.parse_skipped_files.saturating_add(1);
                self.diagnostics.push(
                    FileDiagnostic::new(
                        Some(parsed.path.clone()),
                        DiagnosticStage::Assemble,
                        DiagnosticSeverity::Error,
                        "assembly_error".to_owned(),
                        error.to_string(),
                    ),
                );
                assert(self.diagnostics@.drop_last() =~= old(self).diagnostics@);
                assert(assembler::file_refused(*parsed, error));
            },
        }
    }

    /// Ends the run: the lists of the model and the diagnostics in order.
    pub fn finish(self) -> (report: IndexReport)
        ensures
            finishes(self, report),
    {
        let mut model = self.model;
        assembler::sort_model(&mut model);
        let mut diagnostics = self.diagnostics;
        sort::stable_sort(&mut diagnostics);
        IndexReport {
            model,
            counts: IndexCounts {
                scanned_files: self.scanned_files,
                parsed_files: self.parsed_files,
                skipped_files: self.scan_skipped_files.saturating_add(self.parse_skipped_files),
            },
            diagnostics,
            cache_hit: false,
        }
    }
}

/// What parsing returned of every file, for the files that it returned one of.
pub open spec fn parsed_of(outcomes: Seq<Result<ParsedFile, RegistryError>>) -> Seq<ParsedFile>
    decreases outcomes.len(),
{
    if outcomes.len() == 0 {
        Seq::empty()
    } else {
        match outcomes.last() {
            Ok(file) => parsed_of(outcomes.drop_last()).push(file),
            Err(_) => parsed_of(outcomes.drop_last()),
        }
    }
}

/// The files that can be assembled, in their order.
pub open spec fn assemblable_of(files: Seq<ParsedFile>) -> Seq<ParsedFile>
    decreases files.len(),
{
    if files.len() == 0 {
        Seq::empty()
    } else if assembler::assemblable(files.last()) {
        assemblable_of(files.drop_last()).push(files.last())
    } else {
        assemblable_of(files.drop_last())
    }
}

/// Every failure of parsing is reported, in the order of the files.
pub open spec fn failures_reported(
    before: Seq<FileDiagnostic>,
    after: Seq<FileDiagnostic>,
    outcomes: Seq<Result<ParsedFile, RegistryError>>,
) -> bool
    decreases outcomes.len(),
{
    if outcomes.len() == 0 {
        after == before
    } else {
        match outcomes.last() {
            Ok(_) => failures_reported(before, after, outcomes.drop_last()),
            Err(error) => {
                &&& reported(
                    after.drop_last(),
                    after,
                    Some(error.concerns()),
                    DiagnosticStage::Parse,
                    DiagnosticSeverity::Error,
                    error.code_text(),
                    error.message_text(),
                )
                &&& failures_reported(before, after.drop_last(), outcomes.drop_last())
            },
        }
    }
}

/// A file that cannot be assembled is reported last.
pub open spec fn refusal_reported(
    before: Seq<FileDiagnostic>,
    after: Seq<FileDiagnostic>,
    file: ParsedFile,
) -> bool {
    exists|error: AssemblyError|
        #[trigger] assembler::file_refused(file, error) && reported(
            before,
            after,
            Some(file.path),
            DiagnosticStage::Assemble,
            DiagnosticSeverity::Error,
            "assembly_error"@,
            error.message_text(),
        )
}

/// Every file that cannot be assembled is reported, in the order of the files.
pub open spec fn refusals_reported(
    before: Seq<FileDiagnostic>,
    after: Seq<FileDiagnostic>,
    files: Seq<ParsedFile>,
) -> bool
    decreases files.len(),
{
    if files.len() == 0 {
        after == before
    } else if assembler::assemblable(files.last()) {
        refusals_reported(before, after, files.drop_last())
    } else {
        &&& refusal_reported(after.drop_last(), after, files.last())
        &&& refusals_reported(before, after.drop_last(), files.drop_last())
    }
}

/// A count raised by a number, as far as it can be counted.
pub open spec fn raised(count: u64, more: int) -> u64 {
    if count + more <= u64::MAX {
        (count + more) as u64
    } else {
        u64::MAX
    }
}

/// The records of files, all of which can be assembled, are added to a model.
pub open spec fn model_gathered(
    before: RepositoryModel,
    after: RepositoryModel,
    repository: RepositorySpec,
    files: Seq<ParsedFile>,
    reason: String,
) -> bool {
    &&& after.schema_version == before.schema_version
    &&& after.repository_id == before.repository_id
    &&& after.name == before.name
    &&& after.files@ == before.files@ + assembler::all_files(repository, files, reason)
    &&& after.modules@ == before.modules@ + assembler::all_modules(repository, files, reason)
    &&& after.symbols@ == before.symbols@ + assembler::all_symbols(repository, files, reason)
    &&& after.imports@ == before.imports@ + assembler::all_imports(repository, files, reason)
    &&& after.references@ == before.references@ + assembler::all_references(
        repository,
        files,
        reason,
    )
    &&& after.calls@ == before.calls@ + assembler::all_calls(repository, files, reason)
    &&& after.entry_points@ == before.entry_points@ + assembler::all_entry_points(
        repository,
        files,
        reason,
    )
}

/// What a parser may return of every file.
pub open spec fn outcomes_of<P: Fn(&ScannedFile) -> Result<ParsedFile, RegistryError>>(
    parse: P,
    files: Seq<ScannedFile>,
    outcomes: Seq<Result<ParsedFile, RegistryError>>,
) -> bool {
    &&& outcomes.len() == files.len()
    &&& forall|i: int|
        0 <= i < files.len() ==> call_ensures(parse, (&files[i],), #[trigger] outcomes[i])
}

/// What parsing all files makes of a run.
pub open spec fn files_parsed(
    before: IndexRun,
    after: IndexRun,
    outcomes: Seq<Result<ParsedFile, RegistryError>>,
) -> bool {
    &&& same_run(before, after)
    &&& after.model == before.model
    &&& after.parsed_files == raised(before.parsed_files, parsed_of(outcomes).len() as int)
    &&& after.parse_skipped_files == raised(
        before.parse_skipped_files,
        outcomes.len() - parsed_of(outcomes).len(),
    )
    &&& failures_reported(before.diagnostics@, after.diagnostics@, outcomes)
}

/// What assembling parsed files makes of a run.
pub open spec fn files_assembled(
    before: IndexRun,
    after: IndexRun,
    files: Seq<ParsedFile>,
) -> bool {
    &&& same_run(before, after)
    &&& after.parsed_files == before.parsed_files
    &&& after.parse_skipped_files == raised(
        before.parse_skipped_files,
        files.len() - assemblable_of(files).len(),
    )
    &&& refusals_reported(before.diagnostics@, after.diagnostics@, files)
    &&& model_gathered(
        before.model,
        after.model,
        before.repository,
        assemblable_of(files),
        before.reason,
    )
}

proof fn lemma_gathered_one_more(
    before: RepositoryModel,
    middle: RepositoryModel,
    after: RepositoryModel,
    repository: RepositorySpec,
    files: Seq<ParsedFile>,
    file: ParsedFile,
    reason: String,
)
    requires
        model_gathered(before, middle, repository, files, reason),
        model_extended(middle, after, assembler::context_of(repository, file, reason)),
    ensures
        model_gathered(before, after, repository, files.push(file), reason),
{
    let more = files.push(file);
    assert(more.drop_last() =~= files);
    assert(after.files@ =~= before.files@ + assembler::all_files(repository, more, reason));
    assert(after.modules@ =~= before.modules@ + assembler::all_modules(repository, more, reason));
    assert(after.symbols@ =~= before.symbols@ + assembler::all_symbols(repository, more, reason));
    assert(after.imports@ =~= before.imports@ + assembler::all_imports(repository, more, reason));
    assert(after.references@ =~= before.references@ + assembler::all_references(
        repository,
        more,
        reason,
    ));
    assert(after.calls@ =~= before.calls@ + assembler::all_calls(repository, more, reason));
    assert(after.entry_points@ =~= before.entry_points@ + assembler::all_entry_points(
        repository,
        more,
        reason,
    ));
}

proof fn lemma_selections_are_no_longer(
    outcomes: Seq<Result<ParsedFile, RegistryError>>,
    files: Seq<ParsedFile>,
)
    ensures
        parsed_of(outcomes).len() <= outcomes.len(),
        assemblable_of(files).len() <= files.len(),
    decreases outcomes.len(), files.len(),
{
    if outcomes.len() > 0 {
        lemma_selections_are_no_longer(outcomes.drop_last(), files);
    } else if files.len() > 0 {
        lemma_selections_are_no_longer(outcomes, files.drop_last());
    }
}

impl IndexRun {
    /// Parses the scanned files in their order. A file that cannot be parsed is
    /// reported and does not keep the others from being parsed. Cancellation is
    /// looked for before and after every file: files are parsed to the end only where
    /// it was denied. Every file is reported as progress before it is parsed, and the
    /// end of it all.
    pub fn parse_files<P, C, R>(
        &mut self,
        files: &Vec<ScannedFile>,
        parse: &P,
        cancelled: &C,
        progress: &R,
    ) -> (parsed: Result<Vec<ParsedFile>, IndexError>) where
        P: Fn(&ScannedFile) -> Result<ParsedFile, RegistryError>,
        C: Fn() -> bool,
        R: Fn(Progress),

        requires
            forall|i: int| 0 <= i < files@.len() ==> call_requires(*parse, (&#[trigger] files@[i],)),
            call_requires(*cancelled, ()),
            forall|step: Progress| call_requires(*progress, (step,)),
        ensures
            parsed is Ok && files@.len() > 0 ==> call_ensures(*cancelled, (), false),
            parsed is Ok ==> tells(
                *progress,
                IndexStep::Parsed { total: old(self).scanned_files },
            ) && forall|i: int|
                0 <= i < files@.len() ==> tells(
                    *progress,
                    #[trigger] parsing_step(files@, i, old(self).scanned_files),
                ),
            match parsed {
                Ok(done) => exists|outcomes: Seq<Result<ParsedFile, RegistryError>>|
                    {
                        &&& #[trigger] outcomes_of(*parse, files@, outcomes)
                        &&& done@ == parsed_of(outcomes)
                        &&& files_parsed(*old(self), *final(self), outcomes)
                    },
                Err(error) => error is Cancelled && call_ensures(*cancelled, (), true),
            },
    {
        let mut done: Vec<ParsedFile> = Vec::new();
        let ghost mut outcomes: Seq<Result<ParsedFile, RegistryError>> = Seq::empty();
        let mut index: usize = 0;
        while index < files.len()
            invariant
                index <= files@.len(),
                forall|i: int|
                    0 <= i < files@.len() ==> call_requires(*parse, (&#[trigger] files@[i],)),
                call_requires(*cancelled, ()),
                forall|step: Progress| call_requires(*progress, (step,)),
                outcomes_of(*parse, files@.take(index as int), outcomes),
                done@ == parsed_of(outcomes),
                files_parsed(*old(self), *self, outcomes),
                index > 0 ==> call_ensures(*cancelled, (), false),
                forall|i: int|
                    0 <= i < index ==> tells(
                        *progress,
                        #[trigger] parsing_step(files@, i, old(self).scanned_files),
                    ),
            decreases files@.len() - index,
        {
            if cancelled() {
                return Err(IndexError::Cancelled);
            }
            let file = &files[index];
            let step = IndexStep::Parsing {
                path: &file.path,
                index: index as u64,
                total: self.scanned_files,
            };
            let report = step.progress();
            let ghost told = report;
            progress(report);
            assert(*file == files@[index as int]);
            assert(shows(told, parsing_step(files@, index as int, old(self).scanned_files)));
            let outcome = parse(file);
            let ghost before = outcomes;
            proof {
                outcomes = before.push(outcome);
                assert(outcomes.drop_last() =~= before);
                assert(files@.take(index as int + 1).drop_last() =~= files@.take(index as int));
                assert forall|i: int| 0 <= i < index + 1 implies call_ensures(
                    *parse,
                    (&files@.take(index as int + 1)[i],),
                    #[trigger] outcomes[i],
                ) by {
                    if i < index {
                        assert(outcomes[i] == before[i]);
                        assert(files@.take(index as int)[i] == files@[i]);
                    }
                }
                lemma_selections_are_no_longer(before, Seq::empty());
                lemma_selections_are_no_longer(outcomes, Seq::empty());
            }
            match self.on_parsed(outcome) {
                Some(file) => {
                    done.push(file);
                },
                None => {},
            }
            if cancelled() {
                return Err(IndexError::Cancelled);
            }
            index = index + 1;
        }
        assert(files@.take(files@.len() as int) =~= files@);
        let report = IndexStep::Parsed { total: self.scanned_files }.progress();
        let ghost told = report;
        progress(report);
        assert(shows(told, IndexStep::Parsed { total: old(self).scanned_files }));
        Ok(done)
    }

    /// Assembles the parsed files in their order. A file that cannot be assembled
    /// is reported and does not keep the others from being assembled. Cancellation
    /// is looked for before and after every file: files are assembled to the end only
    /// where it was denied. Every file is reported as progress before it is assembled.
    pub fn assemble_files<C, R>(
        &mut self,
        files: &Vec<ParsedFile>,
        cancelled: &C,
        progress: &R,
    ) -> (outcome: Result<(), IndexError>) where C: Fn() -> bool, R: Fn(Progress)
        requires
            call_requires(*cancelled, ()),
            forall|step: Progress| call_requires(*progress, (step,)),
        ensures
            outcome is Ok && files@.len() > 0 ==> call_ensures(*cancelled, (), false),
            outcome is Ok ==> forall|i: int|
                0 <= i < files@.len() ==> tells(*progress, #[trigger] assembling_step(files@, i)),
            match outcome {
                Ok(()) => files_assembled(*old(self), *final(self), files@),
                Err(error) => error is Cancelled && call_ensures(*cancelled, (), true),
            },
    {
        let total = files.len() as u64;
        let mut index: usize = 0;
        proof {
            let none = files@.take(0);
            assert(self.model.files@ + assembler::all_files(self.repository, none, self.reason)
                =~= self.model.files@);
            assert(model_gathered(
                self.model,
                self.model,
                self.repository,
                assemblable_of(none),
                self.reason,
            ));
        }
        while index < files.len()
            invariant
                index <= files@.len(),
                call_requires(*cancelled, ()),
                forall|step: Progress| call_requires(*progress, (step,)),
                total == files@.len(),
                files_assembled(*old(self), *self, files@.take(index as int)),
                index > 0 ==> call_ensures(*cancelled, (), false),
                forall|i: int|
                    0 <= i < index ==> tells(*progress, #[trigger] assembling_step(files@, i)),
            decreases files@.len() - index,
        {
            if cancelled() {
                return Err(IndexError::Cancelled);
            }
            let file = &files[index];
            let step = IndexStep::Assembling { path: &file.path, index: index as u64, total };
            let report = step.progress();
            let ghost told = report;
            progress(report);
            assert(shows(told, assembling_step(files@, index as int)));
            let ghost before = *self;
            self.on_assemble(file);
            proof {
                let done = files@.take(index as int);
                let more = files@.take(index as int + 1);
                assert(more.drop_last() =~= done);
                lemma_selections_are_no_longer(Seq::empty(), done);
                if assembler::assemblable(*file) {
                    lemma_gathered_one_more(
                        old(self).model,
                        before.model,
                        self.model,
                        self.repository,
                        assemblable_of(done),
                        *file,
                        self.reason,
                    );
                } else {
                    assert(refusal_reported(before.diagnostics@, self.diagnostics@, *file));
                    assert(self.diagnostics@.drop_last() == before.diagnostics@);
                }
            }
            if cancelled() {
                return Err(IndexError::Cancelled);
            }
            index = index + 1;
        }
        assert(files@.take(files@.len() as int) =~= files@);
        Ok(())
    }
}

/// The parts of an indexing that stay the same from run to run.
pub struct Indexer<A> {
    scanner: RepositoryScanner,
    parsers: ParserRegistry<A>,
    cache_revision: String,
}

impl<A: ParserAdapter> Indexer<A> {
    pub closed spec fn scanner_of(self) -> RepositoryScanner {
        self.scanner
    }

    pub closed spec fn parsers_of(self) -> ParserRegistry<A> {
        self.parsers
    }

    pub closed spec fn revision_of(self) -> Seq<char> {
        self.cache_revision@
    }

    pub fn new(scan_config: ScanConfig, parsers: ParserRegistry<A>) -> (indexer: Indexer<A>)
        ensures
            indexer.scanner_of().config_of() == scan_config,
            indexer.parsers_of() == parsers,
            indexer.revision_of() == registry::package_version_text(),
    {
        Indexer {
            scanner: RepositoryScanner::new(scan_config),
            parsers,
            cache_revision: registry::package_version().to_owned(),
        }
    }

    /// Adds a caller-controlled cache revision for parser or configuration changes.
    pub fn with_cache_revision(self, revision: String) -> (indexer: Indexer<A>)
        ensures
            indexer.scanner_of() == self.scanner_of(),
            indexer.parsers_of() == self.parsers_of(),
            indexer.revision_of() == revision@,
    {
        Indexer { scanner: self.scanner, parsers: self.parsers, cache_revision: revision }
    }

    pub fn scanner(&self) -> (scanner: &RepositoryScanner)
        ensures
            *scanner == self.scanner_of(),
    {
        &self.scanner
    }

    pub fn parsers(&self) -> (parsers: &ParserRegistry<A>)
        ensures
            *parsers == self.parsers_of(),
    {
        &self.parsers
    }

    /// Starts a run from the result of a scan. The fingerprint covers the scan, the
    /// cache revision and the registered parsers, listed in order.
    pub fn begin(&self, scan: ScanResult, repository: RepositorySpec) -> (begun: (
        IndexRun,
        Vec<ScannedFile>,
    ))
        ensures
            begun.1 == scan.files,
            begun.0.fresh(),
            begun.0.repository == repository,
            begun.0.scanned_files == scan.files@.len(),
            begun.0.scan_skipped_files == scan.skipped_files,
            begun.0.diagnostics@ == scan.diagnostics@,
            exists|revisions: Seq<Revision>|
                {
                    &&& #[trigger] registry::lists_revisions(
                        self.parsers_of().entries(),
                        revisions,
                    )
                    &&& begun.0.fingerprint@ == digest::hex_of_bytes(
                        digest::sha256_digest(
                            index_bytes(scan.fingerprint@, self.revision_of(), revisions),
                        ),
                    )
                },
    {
        let revisions = self.parsers.revisions();
        let fingerprint = index_fingerprint(
            scan.fingerprint.as_str(),
            self.cache_revision.as_str(),
            &revisions,
        );
        let scanned_files = scan.files.len() as u64;
        let run = IndexRun::begin(
            repository,
            fingerprint,
            scanned_files,
            scan.skipped_files,
            scan.diagnostics,
        );
        assert(registry::lists_revisions(self.parsers_of().entries(), revisions@));
        (run, scan.files)
    }
}

impl<A: ParserAdapter> Default for Indexer<A> {
    fn default() -> (indexer: Indexer<A>)
        ensures
            indexer.scanner_of().config_of().is_default(),
            indexer.parsers_of().entries() == Seq::<registry::Entry>::empty(),
            indexer.revision_of() == registry::package_version_text(),
    {
        Indexer::new(ScanConfig::default(), ParserRegistry::default())
    }
}

/// Whether a diagnostic is cached with an index: those of parsing and assembling,
/// which an unchanged repository would have again.
pub open spec fn cached_stage(stage: DiagnosticStage) -> bool {
    stage == DiagnosticStage::Parse || stage == DiagnosticStage::Assemble
}

/// The diagnostics that are cached with an index, in their order.
pub open spec fn cached_diagnostics(diagnostics: Seq<FileDiagnostic>) -> Seq<FileDiagnostic>
    decreases diagnostics.len(),
{
    if diagnostics.len() == 0 {
        diagnostics
    } else if cached_stage(diagnostics.last().stage) {
        cached_diagnostics(diagnostics.drop_last()).push(diagnostics.last())
    } else {
        cached_diagnostics(diagnostics.drop_last())
    }
}

impl IndexReport {
    /// The record of this report for the cache.
    pub fn cache_record(&self, fingerprint: String, parse_skipped_files: u64) -> (cached: CachedIndex)
        ensures
            records(*self, fingerprint, parse_skipped_files, cached),
    {
        let mut diagnostics: Vec<FileDiagnostic> = Vec::new();
        let mut index: usize = 0;
        while index < self.diagnostics.len()
            invariant
                index <= self.diagnostics@.len(),
                diagnostics@ == cached_diagnostics(self.diagnostics@.take(index as int)),
            decreases self.diagnostics@.len() - index,
        {
            assert(self.diagnostics@.take(index as int + 1).drop_last()
                =~= self.diagnostics@.take(index as int));
            let diagnostic = &self.diagnostics[index];
            if diagnostic.stage == DiagnosticStage::Parse || diagnostic.stage
                == DiagnosticStage::Assemble {
                diagnostics.push(diagnostic.clone());
            }
            index = index + 1;
        }
        assert(self.diagnostics@.take(self.diagnostics@.len() as int) =~= self.diagnostics@);
        CachedIndex {
            fingerprint,
            model: self.model.clone(),
            parsed_files: self.counts.parsed_files,
            skipped_files: parse_skipped_files,
            diagnostics,
        }
    }

    /// Takes note of the result of writing the cache. A failure is reported among
    /// the diagnostics, which stay in order; cancellation ends the indexing.
    pub fn on_cache_write(&mut self, written: Result<(), IndexStoreError>) -> (outcome: Result<
        (),
        IndexError,
    >)
        ensures
            final(self).model == old(self).model,
            final(self).counts == old(self).counts,
            final(self).cache_hit == old(self).cache_hit,
            match written {
                Ok(()) => outcome is Ok && final(self).diagnostics@ == old(self).diagnostics@,
                Err(IndexStoreError::Cancelled) => outcome == Err::<(), IndexError>(
                    IndexError::Cancelled,
                ) && final(self).diagnostics@ == old(self).diagnostics@,
                Err(error) => outcome is Ok && exists|all: Seq<FileDiagnostic>|
                    #[trigger] reported(
                        old(self).diagnostics@,
                        all,
                        None,
                        DiagnosticStage::Cache,
                        DiagnosticSeverity::Warning,
                        "cache_write_error"@,
                        error.message_text(),
                    ) && final(self).diagnostics@ == sort::stable_sorted(all),
            },
    {
        match written {
            Ok(()) => Ok(()),
            Err(IndexStoreError::Cancelled) => Err(IndexError::Cancelled),
            Err(error) => {
                self.diagnostics.push(
                    FileDiagnostic::new(
                        None,
                        DiagnosticStage::Cache,
                        DiagnosticSeverity::Warning,
                        "cache_write_error".to_owned(),
                        error.to_string(),
                    ),
                );
                assert(self.diagnostics@.drop_last() =~= old(self).diagnostics@);
                let ghost all = self.diagnostics@;
                sort::stable_sort(&mut self.diagnostics);
                assert(reported(
                    old(self).diagnostics@,
                    all,
                    None,
                    DiagnosticStage::Cache,
                    DiagnosticSeverity::Warning,
                    "cache_write_error"@,
                    error.message_text(),
                ));
                Ok(())
            },
        }
    }
}

/// The steps of an indexing that are reported as progress.
pub enum IndexStep<'a> {
    Scanning,
    Scanned { files: u64 },
    CacheHit { files: u64 },
    Parsing { path: &'a RepositoryPath, index: u64, total: u64 },
    Parsed { total: u64 },
    Assembling { path: &'a RepositoryPath, index: u64, total: u64 },
    Complete { total: u64 },
}

impl<'a> IndexStep<'a> {
    pub open spec fn phase(self) -> ProgressPhase {
        match self {
            IndexStep::Scanning => ProgressPhase::Scanning,
            IndexStep::Scanned { .. } => ProgressPhase::Scanning,
            IndexStep::CacheHit { .. } => ProgressPhase::Indexing,
            IndexStep::Parsing { .. } => ProgressPhase::Parsing,
            IndexStep::Parsed { .. } => ProgressPhase::Parsing,
            IndexStep::Assembling { .. } => ProgressPhase::Indexing,
            IndexStep::Complete { .. } => ProgressPhase::Indexing,
        }
    }

    pub open spec fn message(self) -> Seq<char> {
        match self {
            IndexStep::Scanning => "scanning repository"@,
            IndexStep::Scanned { .. } => "repository scan complete"@,
            IndexStep::CacheHit { .. } => "loaded unchanged repository index from cache"@,
            IndexStep::Parsing { path, .. } => "parsing "@ + path@,
            IndexStep::Parsed { .. } => "repository parsing complete"@,
            IndexStep::Assembling { path, .. } => "assembling "@ + path@,
            IndexStep::Complete { .. } => "repository index complete"@,
        }
    }

    pub open spec fn completed(self) -> Option<u64> {
        match self {
            IndexStep::Scanning => Some(0),
            IndexStep::Scanned { files } => Some(files),
            IndexStep::CacheHit { files } => Some(files),
            IndexStep::Parsing { index, .. } => Some(index),
            IndexStep::Parsed { total } => Some(total),
            IndexStep::Assembling { index, .. } => Some(index),
            IndexStep::Complete { total } => Some(total),
        }
    }

    pub open spec fn total(self) -> Option<u64> {
        match self {
            IndexStep::Scanning => None,
            IndexStep::Scanned { files } => Some(files),
            IndexStep::CacheHit { files } => Some(files),
            IndexStep::Parsing { total, .. } => Some(total),
            IndexStep::Parsed { total } => Some(total),
            IndexStep::Assembling { total, .. } => Some(total),
            IndexStep::Complete { total } => Some(total),
        }
    }

    /// What a step is reported as.
    pub fn progress(self) -> (progress: Progress)
        ensures
            shows(progress, self),
    {
        match self {
            IndexStep::Scanning => Progress {
                phase: ProgressPhase::Scanning,
                message: "scanning repository".to_owned(),
                completed: Some(0),
                total: None,
            },
            IndexStep::Scanned { files } => Progress {
                phase: ProgressPhase::Scanning,
                message: "repository scan complete".to_owned(),
                completed: Some(files),
                total: Some(files),
            },
            IndexStep::CacheHit { files } => Progress {
                phase: ProgressPhase::Indexing,
                message: "loaded unchanged repository index from cache".to_owned(),
                completed: Some(files),
                total: Some(files),
            },
            IndexStep::Parsing { path, index, total } => {
                let mut message = "parsing ".to_owned();
                message.push_str(path.as_str());
                Progress {
                    phase: ProgressPhase::Parsing,
                    message,
                    completed: Some(index),
                    total: Some(total),
                }
            },
            IndexStep::Parsed { total } => Progress {
                phase: ProgressPhase::Parsing,
                message: "repository parsing complete".to_owned(),
                completed: Some(total),
                total: Some(total),
            },
            IndexStep::Assembling { path, index, total } => {
                let mut message = "assembling ".to_owned();
                message.push_str(path.as_str());
                Progress {
                    phase: ProgressPhase::Indexing,
                    message,
                    completed: Some(index),
                    total: Some(total),
                }
            },
            IndexStep::Complete { total } => Progress {
                phase: ProgressPhase::Indexing,
                message: "repository index complete".to_owned(),
                completed: Some(total),
                total: Some(total),
            },
        }
    }
}

/// Whether a report of progress shows a step.
pub open spec fn shows(progress: Progress, step: IndexStep<'_>) -> bool {
    &&& progress.phase == step.phase()
    &&& progress.message@ == step.message()
    &&& progress.completed == step.completed()
    &&& progress.total == step.total()
}

/// Whether a step was reported: the function that takes reports has returned from one
/// that shows it.
pub open spec fn tells<R: Fn(Progress)>(progress: R, step: IndexStep<'_>) -> bool {
    exists|report: Progress| #[trigger]
        shows(report, step) && call_ensures(progress, (report,), ())
}

/// The step in which a scanned file is parsed.
pub open spec fn parsing_step<'a>(files: Seq<ScannedFile>, i: int, total: u64) -> IndexStep<'a> {
    IndexStep::Parsing { path: &files[i].path, index: i as u64, total }
}

/// The step in which a parsed file is assembled.
pub open spec fn assembling_step<'a>(files: Seq<ParsedFile>, i: int) -> IndexStep<'a> {
    IndexStep::Assembling { path: &files[i].path, index: i as u64, total: files.len() as u64 }
}

/// A cached index is good for the repository that it was recorded of: a record of
/// a finished run is recognized as long as the fingerprint is the same.
pub proof fn law_recorded_index_is_good(
    report: IndexReport,
    cached: CachedIndex,
    fingerprint: String,
    repository: RepositorySpec,
)
    requires
        cached.fingerprint == fingerprint,
        ir::same_model(cached.model, report.model),
        report.model.repository_id == repository.identity(),
        report.model.name == repository.name,
    ensures
        still_good(cached, fingerprint@, repository),
{
}

/// Indexing assembles what can be assembled: whatever files failed on the way, the
/// model of a run that went through is that of the other files.
pub proof fn law_failed_files_leave_the_model_to_the_others(
    start: IndexRun,
    parsed: IndexRun,
    assembled: IndexRun,
    outcomes: Seq<Result<ParsedFile, RegistryError>>,
    report: IndexReport,
)
    requires
        start.fresh(),
        files_parsed(start, parsed, outcomes),
        files_assembled(parsed, assembled, parsed_of(outcomes)),
        model_sorted(assembled.model, report.model),
    ensures
        assembler::assembles(
            start.repository,
            assemblable_of(parsed_of(outcomes)),
            start.reason,
            report.model,
        ),
{
    let files = assemblable_of(parsed_of(outcomes));
    let model = assembled.model;
    assert(model.files@ =~= assembler::all_files(start.repository, files, start.reason));
    assert(model.modules@ =~= assembler::all_modules(start.repository, files, start.reason));
    assert(model.symbols@ =~= assembler::all_symbols(start.repository, files, start.reason));
    assert(model.imports@ =~= assembler::all_imports(start.repository, files, start.reason));
    assert(model.references@ =~= assembler::all_references(start.repository, files, start.reason));
    assert(model.calls@ =~= assembler::all_calls(start.repository, files, start.reason));
    assert(model.entry_points@ =~= assembler::all_entry_points(
        start.repository,
        files,
        start.reason,
    ));
}

/// Whether a diagnostic at `at` tells that a file could not be parsed.
pub open spec fn tells_failure(
    diagnostics: Seq<FileDiagnostic>,
    at: int,
    error: RegistryError,
) -> bool {
    &&& diagnostics[at].path == Some(error.concerns())
    &&& diagnostics[at].stage == DiagnosticStage::Parse
    &&& diagnostics[at].severity == DiagnosticSeverity::Error
    &&& diagnostics[at].code@ == error.code_text()
    &&& diagnostics[at].message@ == error.message_text()
}

proof fn lemma_failures(
    before: Seq<FileDiagnostic>,
    after: Seq<FileDiagnostic>,
    outcomes: Seq<Result<ParsedFile, RegistryError>>,
)
    requires
        failures_reported(before, after, outcomes),
    ensures
        after.len() + parsed_of(outcomes).len() == before.len() + outcomes.len(),
        before.len() <= after.len(),
        after.take(before.len() as int) == before,
        forall|i: int|
            0 <= i < outcomes.len() ==> match #[trigger] outcomes[i] {
                Ok(file) => parsed_of(outcomes).contains(file),
                Err(error) => exists|at: int|
                    before.len() <= at < after.len() && #[trigger] tells_failure(after, at, error),
            },
    decreases outcomes.len(),
{
    if outcomes.len() == 0 {
        assert(after.take(before.len() as int) =~= before);
    } else {
        let fewer = outcomes.drop_last();
        let last = outcomes.len() - 1;
        let earlier = parsed_of(fewer);
        match outcomes[last] {
            Ok(file) => {
                lemma_failures(before, after, fewer);
                assert forall|i: int| 0 <= i < outcomes.len() implies match #[trigger] outcomes[i] {
                    Ok(file) => parsed_of(outcomes).contains(file),
                    Err(error) => exists|at: int|
                        before.len() <= at < after.len() && #[trigger] tells_failure(
                            after,
                            at,
                            error,
                        ),
                } by {
                    if i == last {
                        assert(parsed_of(outcomes)[earlier.len() as int] == file);
                    } else {
                        assert(outcomes[i] == fewer[i]);
                        if let Ok(found) = outcomes[i] {
                            let k = choose|k: int| 0 <= k < earlier.len() && earlier[k] == found;
                            assert(parsed_of(outcomes)[k] == found);
                        }
                    }
                }
            },
            Err(error) => {
                let rest = after.drop_last();
                lemma_failures(before, rest, fewer);
                assert(after.take(before.len() as int) =~= rest.take(before.len() as int));
                assert forall|i: int| 0 <= i < outcomes.len() implies match #[trigger] outcomes[i] {
                    Ok(file) => parsed_of(outcomes).contains(file),
                    Err(error) => exists|at: int|
                        before.len() <= at < after.len() && #[trigger] tells_failure(
                            after,
                            at,
                            error,
                        ),
                } by {
                    if i == last {
                        assert(tells_failure(after, after.len() - 1, error));
                    } else {
                        assert(outcomes[i] == fewer[i]);
                        if let Err(found) = outcomes[i] {
                            let at = choose|at: int|
                                before.len() <= at < rest.len() && #[trigger] tells_failure(
                                    rest,
                                    at,
                                    found,
                                );
                            assert(tells_failure(after, at, found));
                        }
                    }
                }
            },
        }
    }
}

proof fn lemma_parsed(outcomes: Seq<Result<ParsedFile, RegistryError>>, k: int) -> (i: int)
    requires
        0 <= k < parsed_of(outcomes).len(),
    ensures
        0 <= i < outcomes.len(),
        outcomes[i] == Ok::<ParsedFile, RegistryError>(parsed_of(outcomes)[k]),
    decreases outcomes.len(),
{
    let earlier = parsed_of(outcomes.drop_last());
    if k < earlier.len() {
        lemma_parsed(outcomes.drop_last(), k)
    } else {
        outcomes.len() - 1
    }
}

/// Every file is either parsed, and then handed on, or reported as one that could not
/// be. What was reported before stays, nothing else is reported, and all files are
/// counted once.
pub proof fn law_every_file_is_parsed_or_reported(
    before: IndexRun,
    after: IndexRun,
    outcomes: Seq<Result<ParsedFile, RegistryError>>,
)
    requires
        files_parsed(before, after, outcomes),
    ensures
        forall|i: int|
            0 <= i < outcomes.len() ==> match #[trigger] outcomes[i] {
                Ok(file) => parsed_of(outcomes).contains(file),
                Err(error) => exists|at: int|
                    before.diagnostics@.len() <= at < after.diagnostics@.len()
                        && #[trigger] tells_failure(after.diagnostics@, at, error),
            },
        forall|k: int|
            0 <= k < parsed_of(outcomes).len() ==> outcomes.contains(
                Ok::<ParsedFile, RegistryError>(#[trigger] parsed_of(outcomes)[k]),
            ),
        after.diagnostics@.len() + parsed_of(outcomes).len() == before.diagnostics@.len()
            + outcomes.len(),
        after.diagnostics@.take(before.diagnostics@.len() as int) == before.diagnostics@,
        before.parsed_files + before.parse_skipped_files + outcomes.len() <= u64::MAX
            ==> after.parsed_files + after.parse_skipped_files == before.parsed_files
            + before.parse_skipped_files + outcomes.len() && after.parsed_files
            == before.parsed_files + parsed_of(outcomes).len(),
{
    lemma_failures(before.diagnostics@, after.diagnostics@, outcomes);
    assert forall|k: int| 0 <= k < parsed_of(outcomes).len() implies outcomes.contains(
        Ok::<ParsedFile, RegistryError>(#[trigger] parsed_of(outcomes)[k]),
    ) by {
        let i = lemma_parsed(outcomes, k);
        assert(outcomes[i] == Ok::<ParsedFile, RegistryError>(parsed_of(outcomes)[k]));
    }
}

/// Whether a diagnostic at `at` tells that a file could not be assembled.
pub open spec fn tells_refusal(diagnostics: Seq<FileDiagnostic>, at: int, file: ParsedFile) -> bool {
    &&& diagnostics[at].path == Some(file.path)
    &&& diagnostics[at].stage == DiagnosticStage::Assemble
    &&& diagnostics[at].severity == DiagnosticSeverity::Error
    &&& diagnostics[at].code@ == "assembly_error"@
}

proof fn lemma_refusals(
    before: Seq<FileDiagnostic>,
    after: Seq<FileDiagnostic>,
    files: Seq<ParsedFile>,
)
    requires
        refusals_reported(before, after, files),
    ensures
        after.len() + assemblable_of(files).len() == before.len() + files.len(),
        before.len() <= after.len(),
        after.take(before.len() as int) == before,
        forall|i: int|
            0 <= i < files.len() ==> if assembler::assemblable(#[trigger] files[i]) {
                assemblable_of(files).contains(files[i])
            } else {
                exists|at: int|
                    before.len() <= at < after.len() && #[trigger] tells_refusal(
                        after,
                        at,
                        files[i],
                    )
            },
        forall|k: int|
            0 <= k < assemblable_of(files).len() ==> assembler::assemblable(
                #[trigger] assemblable_of(files)[k],
            ) && files.contains(assemblable_of(files)[k]),
    decreases files.len(),
{
    if files.len() == 0 {
        assert(after.take(before.len() as int) =~= before);
    } else {
        let fewer = files.drop_last();
        let last = files.len() - 1;
        let earlier = assemblable_of(fewer);
        let good = assembler::assemblable(files[last]);
        let rest = if good {
            after
        } else {
            after.drop_last()
        };
        lemma_refusals(before, rest, fewer);
        assert(after.take(before.len() as int) =~= rest.take(before.len() as int));
        assert forall|i: int| 0 <= i < files.len() implies if assembler::assemblable(
            #[trigger] files[i],
        ) {
            assemblable_of(files).contains(files[i])
        } else {
            exists|at: int|
                before.len() <= at < after.len() && #[trigger] tells_refusal(after, at, files[i])
        } by {
            if i == last {
                if good {
                    assert(assemblable_of(files)[earlier.len() as int] == files[last]);
                } else {
                    assert(tells_refusal(after, after.len() - 1, files[last]));
                }
            } else {
                assert(fewer[i] == files[i]);
                if assembler::assemblable(files[i]) {
                    let k = choose|k: int| 0 <= k < earlier.len() && earlier[k] == files[i];
                    assert(assemblable_of(files)[k] == files[i]);
                } else {
                    let at = choose|at: int|
                        before.len() <= at < rest.len() && #[trigger] tells_refusal(
                            rest,
                            at,
                            files[i],
                        );
                    assert(tells_refusal(after, at, files[i]));
                }
            }
        }
        assert forall|k: int| 0 <= k < assemblable_of(files).len() implies assembler::assemblable(
            #[trigger] assemblable_of(files)[k],
        ) && files.contains(assemblable_of(files)[k]) by {
            if k < earlier.len() {
                assert(assemblable_of(files)[k] == earlier[k]);
                let i = choose|i: int| 0 <= i < fewer.len() && fewer[i] == earlier[k];
                assert(files[i] == earlier[k]);
            } else {
                assert(assemblable_of(files)[k] == files[last]);
            }
        }
    }
}

/// Every parsed file is either assembled or reported as one that could not be, and then
/// counted as skipped. What was reported before stays, and nothing else is reported.
pub proof fn law_every_file_is_assembled_or_reported(
    before: IndexRun,
    after: IndexRun,
    files: Seq<ParsedFile>,
)
    requires
        files_assembled(before, after, files),
    ensures
        forall|i: int|
            0 <= i < files.len() ==> if assembler::assemblable(#[trigger] files[i]) {
                assemblable_of(files).contains(files[i])
            } else {
                exists|at: int|
                    before.diagnostics@.len() <= at < after.diagnostics@.len()
                        && #[trigger] tells_refusal(after.diagnostics@, at, files[i])
            },
        forall|k: int|
            0 <= k < assemblable_of(files).len() ==> assembler::assemblable(
                #[trigger] assemblable_of(files)[k],
            ) && files.contains(assemblable_of(files)[k]),
        after.diagnostics@.len() + assemblable_of(files).len() == before.diagnostics@.len()
            + files.len(),
        after.diagnostics@.take(before.diagnostics@.len() as int) == before.diagnostics@,
        after.parsed_files == before.parsed_files,
        before.parse_skipped_files + files.len() <= u64::MAX ==> after.parse_skipped_files
            - before.parse_skipped_files == after.diagnostics@.len() - before.diagnostics@.len(),
{
    lemma_refusals(before.diagnostics@, after.diagnostics@, files);
}

/// The report of a run tells what the run found: every diagnostic, in order, and how many
/// files were scanned, parsed and skipped.
pub proof fn law_report_tells_the_run(run: IndexRun, report: IndexReport)
    requires
        finishes(run, report),
    ensures
        report.diagnostics@.to_multiset() == run.diagnostics@.to_multiset(),
        sort::sorted(report.diagnostics@),
        report.counts.scanned_files == run.scanned_files,
        report.counts.parsed_files == run.parsed_files,
        run.scan_skipped_files + run.parse_skipped_files <= u64::MAX
            ==> report.counts.skipped_files == run.scan_skipped_files + run.parse_skipped_files,
        report.counts.skipped_files >= run.scan_skipped_files,
        report.counts.skipped_files >= run.parse_skipped_files,
        !report.cache_hit,
        report.model.repository_id == run.model.repository_id,
        report.model.symbols@.to_multiset() == run.model.symbols@.to_multiset(),
        report.model.files@.to_multiset() == run.model.files@.to_multiset(),
        report.model.modules@.to_multiset() == run.model.modules@.to_multiset(),
        report.model.imports@.to_multiset() == run.model.imports@.to_multiset(),
        report.model.references@.to_multiset() == run.model.references@.to_multiset(),
        report.model.calls@.to_multiset() == run.model.calls@.to_multiset(),
        report.model.entry_points@.to_multiset() == run.model.entry_points@.to_multiset(),
{
    sort::law_stable_sort(run.diagnostics@, run.diagnostics@[0]);
    sort::law_stable_sort(run.model.symbols@, run.model.symbols@[0]);
    sort::law_stable_sort(run.model.files@, run.model.files@[0]);
    sort::law_stable_sort(run.model.modules@, run.model.modules@[0]);
    sort::law_stable_sort(run.model.imports@, run.model.imports@[0]);
    sort::law_stable_sort(run.model.references@, run.model.references@[0]);
    sort::law_stable_sort(run.model.calls@, run.model.calls@[0]);
    sort::law_stable_sort(run.model.entry_points@, run.model.entry_points@[0]);
}

/// The diagnostics that are cached are those of parsing and of assembling, and no other.
pub proof fn law_cached_diagnostics_are_of_the_files(
    diagnostics: Seq<FileDiagnostic>,
    diagnostic: FileDiagnostic,
)
    ensures
        cached_diagnostics(diagnostics).contains(diagnostic) <==> diagnostics.contains(diagnostic)
            && (diagnostic.stage == DiagnosticStage::Parse || diagnostic.stage
            == DiagnosticStage::Assemble),
    decreases diagnostics.len(),
{
    if diagnostics.len() > 0 {
        let fewer = diagnostics.drop_last();
        let last = diagnostics.last();
        let earlier = cached_diagnostics(fewer);
        law_cached_diagnostics_are_of_the_files(fewer, diagnostic);
        assert(diagnostics =~= fewer.push(last));
        assert(diagnostics.contains(diagnostic) <==> fewer.contains(diagnostic) || diagnostic
            == last) by {
            if fewer.contains(diagnostic) {
                let i = choose|i: int| 0 <= i < fewer.len() && fewer[i] == diagnostic;
                assert(diagnostics[i] == diagnostic);
            }
            if diagnostics.contains(diagnostic) && diagnostic != last {
                let i = choose|i: int| 0 <= i < diagnostics.len() && diagnostics[i] == diagnostic;
                assert(fewer[i] == diagnostic);
            }
            if diagnostic == last {
                assert(diagnostics[diagnostics.len() - 1] == diagnostic);
            }
        }
        if cached_stage(last.stage) {
            let now = cached_diagnostics(diagnostics);
            assert(now.contains(diagnostic) <==> earlier.contains(diagnostic) || diagnostic
                == last) by {
                if earlier.contains(diagnostic) {
                    let i = choose|i: int| 0 <= i < earlier.len() && earlier[i] == diagnostic;
                    assert(now[i] == diagnostic);
                }
                if now.contains(diagnostic) && diagnostic != last {
                    let i = choose|i: int| 0 <= i < now.len() && now[i] == diagnostic;
                    assert(earlier[i] == diagnostic);
                }
                if diagnostic == last {
                    assert(now[now.len() - 1] == diagnostic);
                }
            }
        }
    }
}

} // verus!
