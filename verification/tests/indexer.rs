//! Scanning, parsing, assembling and caching a repository held in memory.
use codeatlas::app::{Progress, ProgressPhase};
use codeatlas::assembler::{AssemblyError, IndexAssembler, RepositorySpec};
use codeatlas::diagnostic::{DiagnosticSeverity, DiagnosticStage, FileDiagnostic};
use codeatlas::indexer::{
    index_fingerprint, CacheDecision, IndexError, IndexReport, IndexStep, Indexer,
};
use codeatlas::ir::{Language, RepositoryModel, SymbolKind, TargetResolution};
use codeatlas::lang_python::PythonParser;
use codeatlas::lang_rust::RustParser;
use codeatlas::parser::{
    ParseInput, ParsedCall, ParsedFile, ParsedSymbol, ParsedSymbolId, ParsedTarget, ParserAdapter,
    ParserError,
};
use codeatlas::path::RepositoryPath;
use codeatlas::registry::{ParserRegistry, RegistryError, Revision};
use codeatlas::scanner::{
    language_for_path, to_repository_path, EntryAction, EntryKind, EntryPart,
    EntryPath, MetadataAction, MetadataReport, ReadReport, RepositoryScanner, ScanConfig,
    ScanError, ScanResult, ScanState, ScannedFile, WalkEvent,
};
use codeatlas::schema::SchemaVersion;
use codeatlas::source::SourceSpan;
use codeatlas::store::{
    accept_record, check_storage, check_writable, entry_name, temporary_name, CachedIndex,
    IndexStoreError, PathState, StorageRole, STORE_SCHEMA_VERSION,
};
use std::cell::RefCell;
use std::sync::atomic::{AtomicUsize, Ordering};
use std::sync::Arc;

/// A file of a repository that is held in memory.
struct Entry {
    path: &'static str,
    kind: EntryKind,
    contents: Vec<u8>,
}

fn file(path: &'static str, contents: &[u8]) -> Entry {
    Entry {
        path,
        kind: EntryKind::File,
        contents: contents.to_vec(),
    }
}

fn entry_path(path: &str) -> EntryPath {
    EntryPath::Below(path.split('/').map(|part| EntryPart::Normal(part.to_owned())).collect())
}

/// Walks the entries in their order and answers what the scan asks for.
fn scan(config: &ScanConfig, entries: &[Entry]) -> ScanResult {
    let mut state = ScanState::start();
    for entry in entries {
        let event = WalkEvent::Entry {
            depth: entry.path.split('/').count(),
            path: entry_path(entry.path),
            kind: Some(entry.kind),
        };
        let pending = match state.on_entry(config, event) {
            EntryAction::Stop => break,
            EntryAction::Continue => continue,
            EntryAction::Inspect(pending) => pending,
        };
        let metadata = MetadataReport::Found {
            regular: true,
            len: entry.contents.len() as u64,
            modified: None,
        };
        if let MetadataAction::Read { file, modified } = state.on_metadata(config, pending, metadata)
        {
            state.on_read(config, file, modified, ReadReport::Bytes(entry.contents.clone()));
        }
    }
    state.finish(config)
}

struct CountingRustParser {
    calls: Arc<AtomicUsize>,
}

impl ParserAdapter for CountingRustParser {
    fn language(&self) -> Language {
        Language::Rust
    }

    fn parse(&self, input: ParseInput<'_>) -> Result<ParsedFile, ParserError> {
        self.calls.fetch_add(1, Ordering::Relaxed);
        if input.source.contains("BROKEN") {
            return Err(ParserError {
                path: input.path.clone(),
                message: "deliberate parser failure".to_owned(),
            });
        }
        let mut parsed = ParsedFile::empty(input.path.clone(), Language::Rust);
        parsed.symbols.push(ParsedSymbol {
            local_id: ParsedSymbolId(0),
            name: "run".to_owned(),
            qualified_name: "crate::run".to_owned(),
            kind: SymbolKind::Function,
            span: SourceSpan::new(1, 0, 1, 2).expect("valid span"),
            parent_id: None,
        });
        Ok(parsed)
    }
}

fn registry(calls: Arc<AtomicUsize>) -> ParserRegistry<CountingRustParser> {
    let mut registry = ParserRegistry::new();
    registry.register_versioned(CountingRustParser { calls }, "test-parser-v1".to_owned());
    registry
}

fn spec(key: &str) -> RepositorySpec {
    RepositorySpec::new("fixture".to_owned(), key.to_owned())
}

/// Indexes a repository held in memory, with the record of an earlier run.
fn index<A: ParserAdapter>(
    indexer: &Indexer<A>,
    entries: &[Entry],
    repository: RepositorySpec,
    cached: Option<CachedIndex>,
    cancelled: &impl Fn() -> bool,
    progress: &impl Fn(Progress),
) -> Result<(IndexReport, Option<CachedIndex>), IndexError> {
    progress(IndexStep::Scanning.progress());
    let scan = scan(indexer.scanner().config(), entries);
    progress(
        IndexStep::Scanned {
            files: scan.files.len() as u64,
        }
        .progress(),
    );
    let (mut run, files) = indexer.begin(scan, repository);
    match run.on_cache_read(Ok(cached)) {
        CacheDecision::Ready(report) => return Ok((report, None)),
        CacheDecision::Parse => {}
        CacheDecision::Cancelled => return Err(IndexError::Cancelled),
    }
    let parse = |file: &ScannedFile| {
        indexer.parsers().parse(
            &file.language,
            ParseInput {
                path: &file.path,
                source: &file.source,
            },
        )
    };
    let parsed = run.parse_files(&files, &parse, cancelled, progress)?;
    run.assemble_files(&parsed, cancelled, progress)?;
    let (fingerprint, skipped) = (run.fingerprint.clone(), run.parse_skipped_files);
    let mut report = run.finish();
    let record = report.cache_record(fingerprint, skipped);
    report.on_cache_write(check_writable(&record))?;
    Ok((report, Some(record)))
}

fn indexed<A: ParserAdapter>(indexer: &Indexer<A>, entries: &[Entry], key: &str) -> IndexReport {
    index(indexer, entries, spec(key), None, &|| false, &|_| {})
        .expect("nothing cancels")
        .0
}

fn codes(diagnostics: &[FileDiagnostic]) -> Vec<&str> {
    diagnostics.iter().map(|diagnostic| diagnostic.code.as_str()).collect()
}

#[test]
fn scanner_skips_binary_large_and_symbolic_link_files() {
    let entries = [
        file("src/ok.rs", b"fn ok() {}\n"),
        file("src/binary.rs", b"fn binary() {\0}\n"),
        file("src/large.py", &[b'x'; 128]),
        Entry {
            path: "src/link.rs",
            kind: EntryKind::SymbolicLink,
            contents: Vec::new(),
        },
    ];
    let config = ScanConfig {
        max_file_size: 32,
        ..ScanConfig::default()
    };
    let scan = scan(RepositoryScanner::new(config).config(), &entries);
    assert_eq!(scan.files.len(), 1);
    assert_eq!(scan.files[0].path.as_str(), "src/ok.rs");
    let codes = codes(&scan.diagnostics);
    assert!(codes.contains(&"binary_file"));
    assert!(codes.contains(&"file_too_large"));
    assert!(codes.contains(&"symbolic_link"));
}

#[test]
fn excluded_directories_are_not_entered() {
    let config = ScanConfig::default();
    for name in ["target", "node_modules", ".venv", ".git"] {
        assert!(!config.enters(1, true, Some(name)), "{name}");
        assert!(config.enters(1, false, Some(name)), "{name} as a file");
        assert!(config.enters(0, true, Some(name)), "{name} as the root");
    }
    assert!(config.enters(1, true, Some("src")));
    assert!(config.enters(1, true, None));
}

#[test]
fn scanned_files_are_sorted_by_path() {
    let entries = [file("z.py", b"print('z')\n"), file("src/a.rs", b"fn a() {}\n")];
    let scan = scan(&ScanConfig::default(), &entries);
    let paths: Vec<_> = scan.files.iter().map(|file| file.path.as_str()).collect();
    assert_eq!(paths, ["src/a.rs", "z.py"]);
}

#[test]
fn excluded_names_are_a_set_to_the_fingerprint() {
    let fingerprint = |names: &[&str]| {
        let config = ScanConfig {
            excluded_directories: names.iter().map(|name| (*name).to_owned()).collect(),
            ..ScanConfig::default()
        };
        scan(&config, &[file("a.rs", b"fn a() {}\n")]).fingerprint
    };
    let listed = fingerprint(&[".git", ".venv", "node_modules", "target"]);
    assert_eq!(listed, fingerprint(&["target", ".git", "node_modules", ".venv", "target"]));
    assert_eq!(
        listed,
        scan(&ScanConfig::default(), &[file("a.rs", b"fn a() {}\n")]).fingerprint
    );
    assert_ne!(listed, fingerprint(&["target"]));
}

#[test]
fn a_scan_keeps_within_its_limits() {
    let entries = [
        file("a.rs", b"fn a() {}\n"),
        file("b.rs", b"fn b() {}\n"),
        file("c.rs", b"fn c() {}\n"),
    ];
    let few = ScanConfig {
        max_files: 2,
        ..ScanConfig::default()
    };
    let scanned = scan(&few, &entries);
    assert_eq!(scanned.files.len(), 2);
    assert!(codes(&scanned.diagnostics).contains(&"file_limit_reached"));
    assert_eq!(scanned.skipped_files, 1);

    let small = ScanConfig {
        max_total_bytes: 15,
        ..ScanConfig::default()
    };
    assert_eq!(scan(&small, &entries).files.len(), 1);
    let short = ScanConfig {
        max_entries: 1,
        ..ScanConfig::default()
    };
    let scanned = scan(&short, &entries);
    assert_eq!(scanned.files.len(), 1);
    assert_eq!(scanned.diagnostics.len(), 1);
}

#[test]
fn fingerprints_follow_contents_and_paths() {
    let config = ScanConfig::default();
    let first = scan(&config, &[file("a.rs", b"fn a() {}\n")]).fingerprint;
    assert_eq!(first.len(), 64);
    assert_eq!(first, scan(&config, &[file("a.rs", b"fn a() {}\n")]).fingerprint);
    assert_ne!(first, scan(&config, &[file("a.rs", b"fn b() {}\n")]).fingerprint);
    assert_ne!(first, scan(&config, &[file("b.rs", b"fn a() {}\n")]).fingerprint);

    let revision = |revision: &str| Revision {
        language: "rust".to_owned(),
        revision: revision.to_owned(),
    };
    let whole = index_fingerprint(&first, "cache", &vec![revision("1")]);
    assert_ne!(whole, index_fingerprint(&first, "cache", &vec![revision("2")]));
    assert_ne!(whole, index_fingerprint(&first, "other", &vec![revision("1")]));
}

#[test]
fn names_that_are_no_repository_paths_are_refused() {
    assert_eq!(
        to_repository_path(&entry_path("src/lib.rs")).map(|path| path.to_string()),
        Ok("src/lib.rs".to_owned())
    );
    for part in [EntryPart::Undecodable, EntryPart::Irregular] {
        assert!(to_repository_path(&EntryPath::Below(vec![part])).is_err());
    }
    assert!(to_repository_path(&EntryPath::Outside("elsewhere".to_owned())).is_err());
    let language = |path: &str| {
        language_for_path(&RepositoryPath::new(path.to_owned()).expect("canonical path"))
    };
    assert_eq!(language("src/LIB.RS"), Some(Language::Rust));
    assert_eq!(language("pkg/stub.pyi"), Some(Language::Python));
    assert_eq!(language("README"), None);
}

#[test]
fn undecodable_sources_are_reported() {
    let scanned = scan(&ScanConfig::default(), &[file("bad.rs", &[b'f', 0xff, b'n'])]);
    assert!(scanned.files.is_empty());
    assert_eq!(scanned.diagnostics.len(), 1);
    assert_eq!(scanned.diagnostics[0].stage, DiagnosticStage::Scan);
    assert!(scanned.diagnostics[0].message.contains("invalid utf-8"));
}

#[test]
fn parser_failures_are_diagnostics_and_other_files_continue() {
    let entries = [file("bad.rs", b"BROKEN\n"), file("good.rs", b"fn good() {}\n")];
    let parser_calls = Arc::new(AtomicUsize::new(0));
    let indexer = Indexer::new(ScanConfig::default(), registry(parser_calls.clone()));
    let progress = RefCell::new(Vec::new());
    let callback = |event: Progress| progress.borrow_mut().push(event);

    let (report, _) = index(
        &indexer,
        &entries,
        spec("parse-errors"),
        None,
        &|| false,
        &callback,
    )
    .expect("one parser failure should not abort indexing");

    assert_eq!(parser_calls.load(Ordering::Relaxed), 2);
    assert_eq!(report.counts.scanned_files, 2);
    assert_eq!(report.counts.parsed_files, 1);
    assert_eq!(report.model.files.len(), 1);
    assert_eq!(report.model.files[0].path.as_str(), "good.rs");
    assert!(report.diagnostics.iter().any(|diagnostic| {
        diagnostic
            .path
            .as_ref()
            .is_some_and(|path| path.as_str() == "bad.rs")
    }));
    let progress = progress.into_inner();
    for phase in [
        ProgressPhase::Scanning,
        ProgressPhase::Parsing,
        ProgressPhase::Indexing,
    ] {
        assert!(progress.iter().any(|event| event.phase == phase));
    }
    assert!(progress.iter().any(|event| event.message == "parsing bad.rs"));
    assert!(progress.iter().any(|event| event.message == "assembling good.rs"));
}

#[test]
fn cancellation_ends_an_indexing() {
    let entries = [file("a.rs", b"fn a() {}\n"), file("b.rs", b"fn b() {}\n")];
    let calls = Arc::new(AtomicUsize::new(0));
    let indexer = Indexer::new(ScanConfig::default(), registry(calls.clone()));
    let cancelled = || calls.load(Ordering::Relaxed) > 0;
    let outcome = index(&indexer, &entries, spec("cancel"), None, &cancelled, &|_| {});
    assert_eq!(outcome.map(|_| ()), Err(IndexError::Cancelled));
    assert_eq!(calls.load(Ordering::Relaxed), 1);
    assert_eq!(IndexError::from_scan(ScanError::Cancelled), IndexError::Cancelled);
}

fn parsed_with_local_call(
    path: &str,
    caller_id: ParsedSymbolId,
    target_id: ParsedSymbolId,
    reverse_symbols: bool,
) -> ParsedFile {
    let path = RepositoryPath::new(path.to_owned()).expect("canonical path");
    let mut parsed = ParsedFile::empty(path, Language::Rust);
    let caller = ParsedSymbol {
        local_id: caller_id,
        name: "caller".to_owned(),
        qualified_name: "crate::caller".to_owned(),
        kind: SymbolKind::Function,
        span: SourceSpan::new(1, 0, 1, 10).expect("valid span"),
        parent_id: None,
    };
    let target = ParsedSymbol {
        local_id: target_id,
        name: "target".to_owned(),
        qualified_name: "crate::target".to_owned(),
        kind: SymbolKind::Function,
        span: SourceSpan::new(2, 0, 2, 10).expect("valid span"),
        parent_id: None,
    };
    parsed.symbols = if reverse_symbols {
        vec![target, caller]
    } else {
        vec![caller, target]
    };
    parsed.calls.push(ParsedCall {
        caller_id: Some(caller_id),
        target: ParsedTarget::Local(target_id),
        span: SourceSpan::new(1, 2, 1, 8).expect("valid span"),
        confidence: None,
    });
    parsed
}

fn local(value: u32) -> ParsedSymbolId {
    ParsedSymbolId(value)
}

#[test]
fn stable_ids_do_not_depend_on_file_or_local_symbol_order() {
    let first_a = parsed_with_local_call("src/a.rs", local(0), local(1), false);
    let first_b = parsed_with_local_call("src/b.rs", local(0), local(1), false);
    let second_a = parsed_with_local_call("src/a.rs", local(42), local(7), true);
    let second_b = parsed_with_local_call("src/b.rs", local(8), local(3), true);
    let assembler = IndexAssembler::new(spec("stable-ids"));

    let first = assembler
        .assemble(vec![first_a, first_b])
        .expect("first model should assemble");
    let second = assembler
        .assemble(vec![second_b, second_a])
        .expect("second model should assemble");

    assert_eq!(first, second);
    assert!(first.calls.iter().all(|call| {
        call.caller_id.is_some() && matches!(call.target, TargetResolution::Resolved(_))
    }));
}

#[test]
fn files_with_dangling_or_repeated_symbols_are_refused() {
    let assembler = IndexAssembler::new(spec("refused"));
    let refused = |file: ParsedFile| assembler.assemble(vec![file]).expect_err("refused");
    let good = || parsed_with_local_call("src/a.rs", local(0), local(1), false);

    let mut repeated = good();
    repeated.symbols[1].local_id = local(0);
    assert!(matches!(refused(repeated), AssemblyError::DuplicateLocalSymbolId { .. }));
    let mut dangling = good();
    dangling.calls[0].target = ParsedTarget::Local(local(9));
    let error = refused(dangling);
    assert!(matches!(error, AssemblyError::DanglingLocalSymbolId { .. }));
    assert_eq!(error.path().as_str(), "src/a.rs");
    let twice = assembler.assemble(vec![good(), good()]).expect_err("the same path twice");
    assert!(matches!(twice, AssemblyError::DuplicateFile { .. }));
    assert!(twice.to_string().contains("src/a.rs"));
}

#[test]
fn overloads_are_told_apart_and_single_symbols_keep_their_identity() {
    let assembler = IndexAssembler::new(spec("overloads"));
    let one = parsed_with_local_call("src/a.rs", local(0), local(1), false);
    let mut two = one.clone();
    let mut again = two.symbols[1].clone();
    again.local_id = local(2);
    again.span = SourceSpan::new(5, 0, 5, 10).expect("valid span");
    two.symbols.push(again);
    let single = assembler.assemble(vec![one]).expect("assembles");
    let double = assembler.assemble(vec![two]).expect("assembles");
    let ids = |model: &RepositoryModel, name: &str| {
        model
            .symbols
            .iter()
            .filter(|symbol| symbol.name == name)
            .map(|symbol| symbol.id)
            .collect::<Vec<_>>()
    };
    assert_eq!(ids(&single, "caller"), ids(&double, "caller"));
    let overloads = ids(&double, "target");
    assert_eq!(overloads.len(), 2);
    assert_ne!(overloads[0], overloads[1]);
}

#[test]
fn cache_round_trips_hits_and_invalidates_on_content_change() {
    let parser_calls = Arc::new(AtomicUsize::new(0));
    let indexer = Indexer::new(ScanConfig::default(), registry(parser_calls.clone()));
    let run = |contents: &[u8], cached: Option<CachedIndex>| {
        index(
            &indexer,
            &[file("lib.rs", contents)],
            spec("cache-fixture"),
            cached,
            &|| false,
            &|_| {},
        )
        .expect("index should succeed")
    };

    let (first, record) = run(b"fn first() {}\n", None);
    assert!(!first.cache_hit);
    assert_eq!(parser_calls.load(Ordering::Relaxed), 1);
    let record = record.expect("a record is written");
    let record = accept_record(STORE_SCHEMA_VERSION, record).expect("cache should be readable");

    let (second, _) = run(b"fn first() {}\n", Some(record.clone()));
    assert!(second.cache_hit);
    assert_eq!(first.model, second.model);
    assert_eq!(parser_calls.load(Ordering::Relaxed), 1);

    let (third, rewritten) = run(b"fn changed() {}\n", Some(record));
    assert!(!third.cache_hit);
    assert_eq!(parser_calls.load(Ordering::Relaxed), 2);
    let cached = rewritten.expect("cache entry should exist");
    assert_eq!(cached.model, third.model);
}

#[test]
fn records_of_another_revision_or_repository_are_not_taken() {
    let calls = Arc::new(AtomicUsize::new(0));
    let entries = || [file("lib.rs", b"fn first() {}\n")];
    let indexer = Indexer::new(ScanConfig::default(), registry(calls.clone()));
    let (_, record) = index(&indexer, &entries(), spec("one"), None, &|| false, &|_| {})
        .expect("index should succeed");
    let other = index(&indexer, &entries(), spec("two"), record.clone(), &|| false, &|_| {})
        .expect("index should succeed");
    assert!(!other.0.cache_hit);
    let revised = Indexer::new(ScanConfig::default(), registry(calls))
        .with_cache_revision("next".to_owned());
    let later = index(&revised, &entries(), spec("one"), record, &|| false, &|_| {})
        .expect("index should succeed");
    assert!(!later.0.cache_hit);
}

#[test]
fn cache_failures_are_reported_and_cancellation_is_passed_on() {
    let calls = Arc::new(AtomicUsize::new(0));
    let indexer = Indexer::new(ScanConfig::default(), registry(calls));
    let scanned = || scan(&ScanConfig::default(), &[file("lib.rs", b"fn first() {}\n")]);
    let failure = || IndexStoreError::Io {
        path: "cache".to_owned(),
        reason: "denied".to_owned(),
    };
    let (mut run, _) = indexer.begin(scanned(), spec("failures"));
    assert_eq!(run.cache_key(), spec("failures").repository_id().to_string());
    assert_eq!(run.on_cache_read(Err(failure())), CacheDecision::Parse);
    assert_eq!(codes(&run.diagnostics), ["cache_read_error"]);
    assert!(run.diagnostics[0].message.contains("denied"));
    assert_eq!(
        run.on_cache_read(Err(IndexStoreError::Cancelled)),
        CacheDecision::Cancelled
    );
    let mut report = run.finish();
    assert_eq!(report.on_cache_write(Err(failure())), Ok(()));
    assert_eq!(codes(&report.diagnostics), ["cache_read_error", "cache_write_error"]);
    assert_eq!(
        report.on_cache_write(Err(IndexStoreError::Cancelled)),
        Err(IndexError::Cancelled)
    );
    assert_eq!(report.diagnostics[0].severity, DiagnosticSeverity::Warning);
}

#[test]
fn cache_store_rejects_an_invalid_core_schema() {
    let spec = spec("schema-fixture");
    let mut model = IndexAssembler::new(spec)
        .assemble(Vec::new())
        .expect("empty model should assemble");
    model.schema_version = SchemaVersion::new(999);
    let cached = CachedIndex {
        fingerprint: "fingerprint".to_owned(),
        model,
        parsed_files: 0,
        skipped_files: 0,
        diagnostics: Vec::new(),
    };

    assert!(check_writable(&cached).is_err());
    assert!(matches!(
        accept_record(STORE_SCHEMA_VERSION, cached.clone()),
        Err(IndexStoreError::CoreSchema(_))
    ));
    let refused = accept_record(7, cached).expect_err("another store version");
    assert!(matches!(
        refused,
        IndexStoreError::UnsupportedSchema { expected: 1, actual: 7 }
    ));
    assert!(refused.to_string().contains('7'));
}

#[test]
fn storage_paths_must_be_what_they_serve_as() {
    let check = |role, allow_missing, state| {
        check_storage(role, allow_missing, state, "cache".to_owned(), "gone".to_owned())
    };
    assert_eq!(check(StorageRole::Directory, false, PathState::Directory), Ok(()));
    assert_eq!(check(StorageRole::Record, false, PathState::File), Ok(()));
    assert_eq!(check(StorageRole::Record, true, PathState::Missing), Ok(()));
    let unsafe_path = Err(IndexStoreError::UnsafeStoragePath {
        path: "cache".to_owned(),
    });
    for state in [PathState::SymbolicLink, PathState::Special, PathState::File] {
        assert_eq!(check(StorageRole::Directory, true, state), unsafe_path);
    }
    assert_eq!(
        check(StorageRole::Record, false, PathState::Missing),
        Err(IndexStoreError::Io {
            path: "cache".to_owned(),
            reason: "gone".to_owned(),
        })
    );
}

#[test]
fn records_are_named_by_their_key() {
    let name = entry_name("key");
    assert!(name.ends_with(".json"));
    assert_eq!(name.len(), 64 + ".json".len());
    assert_ne!(name, entry_name("other"));
    assert_eq!(temporary_name(7, 3), ".codeatlas-7-3.tmp");
}

enum AnyParser {
    Rust(RustParser),
    Python(PythonParser),
}

impl ParserAdapter for AnyParser {
    fn language(&self) -> Language {
        match self {
            AnyParser::Rust(parser) => parser.language(),
            AnyParser::Python(parser) => parser.language(),
        }
    }

    fn parse(&self, input: ParseInput<'_>) -> Result<ParsedFile, ParserError> {
        match self {
            AnyParser::Rust(parser) => parser.parse(input),
            AnyParser::Python(parser) => parser.parse(input),
        }
    }
}

#[test]
fn a_repository_of_two_languages_is_indexed() {
    let mut parsers = ParserRegistry::new();
    parsers.register(AnyParser::Python(PythonParser::new()));
    parsers.register(AnyParser::Rust(RustParser::new()));
    let revisions = parsers.revisions();
    let languages: Vec<_> = revisions.iter().map(|item| item.language.as_str()).collect();
    assert_eq!(languages, ["python", "rust"]);
    assert!(parsers.contains(&Language::Rust));
    assert!(!parsers.contains(&Language::Go));
    let indexer = Indexer::new(ScanConfig::default(), parsers);
    let report = indexed(
        &indexer,
        &[
            file("src/lib.rs", b"fn helper() {}\nfn run() { helper(); }\n"),
            file("src/broken.rs", b"fn broken("),
            file("tools/job.py", b"def job():\n    return 1\n\njob()\n"),
        ],
        "two-languages",
    );
    let paths: Vec<_> = report.model.files.iter().map(|file| file.path.as_str()).collect();
    assert_eq!(paths, ["src/lib.rs", "tools/job.py"]);
    assert_eq!(report.counts.skipped_files, 1);
    assert_eq!(codes(&report.diagnostics), ["parse_error"]);
    assert!(report.model.calls.iter().all(|call| call.target.is_resolved()));
    assert_eq!(report.model.calls.len(), 2);
}

struct LyingParser;

impl ParserAdapter for LyingParser {
    fn language(&self) -> Language {
        Language::Go
    }

    fn parse(&self, input: ParseInput<'_>) -> Result<ParsedFile, ParserError> {
        let language = if input.source.contains("language") {
            Language::Rust
        } else {
            Language::Go
        };
        let path = if input.source.contains("path") {
            RepositoryPath::new("elsewhere.go".to_owned()).expect("canonical path")
        } else {
            input.path.clone()
        };
        Ok(ParsedFile::empty(path, language))
    }
}

#[test]
fn output_for_another_path_or_language_is_refused() {
    let mut parsers = ParserRegistry::new();
    parsers.register(LyingParser);
    let path = RepositoryPath::new("main.go".to_owned()).expect("canonical path");
    let parse = |language: Language, source: &str| {
        parsers.parse(&language, ParseInput { path: &path, source })
    };
    assert!(parse(Language::Go, "").is_ok());
    let mismatch = parse(Language::Go, "path").expect_err("another path");
    assert!(matches!(mismatch, RegistryError::PathMismatch { .. }));
    assert_eq!(mismatch.path(), &path);
    assert!(matches!(
        parse(Language::Go, "language"),
        Err(RegistryError::LanguageMismatch { .. })
    ));
    let unsupported = parse(Language::Java, "").expect_err("no parser");
    assert!(matches!(unsupported, RegistryError::UnsupportedLanguage { .. }));
    assert!(unsupported.to_string().contains("main.go"));
    let other = parse(Language::Other("odd \"name\"".to_owned()), "").expect_err("no parser");
    assert!(other.to_string().contains("Other(\"odd \\\"name\\\"\")"));
}

/// An adapter that names itself and repeats its input in the error that it returns.
struct NamedParser {
    language: Language,
    name: &'static str,
}

impl ParserAdapter for NamedParser {
    fn language(&self) -> Language {
        self.language.clone()
    }

    fn parse(&self, input: ParseInput<'_>) -> Result<ParsedFile, ParserError> {
        Err(ParserError {
            path: input.path.clone(),
            message: format!("{}: {}", self.name, input.source),
        })
    }
}

#[test]
fn the_adapter_registered_last_for_a_language_answers() {
    let mut parsers = ParserRegistry::new();
    let adapter = |language: Language, name: &'static str| NamedParser { language, name };
    parsers.register(adapter(Language::Rust, "first"));
    parsers.register_versioned(adapter(Language::Python, "other"), "2".to_owned());
    parsers.register_versioned(adapter(Language::Rust, "second"), "3".to_owned());
    let path = RepositoryPath::new("lib.rs".to_owned()).expect("canonical path");
    let answer = |language: Language| {
        parsers.parse(
            &language,
            ParseInput {
                path: &path,
                source: "the source",
            },
        )
    };
    let said = |name: &str| {
        Err(RegistryError::Parser(ParserError {
            path: path.clone(),
            message: format!("{name}: the source"),
        }))
    };
    assert_eq!(answer(Language::Rust), said("second"));
    assert_eq!(answer(Language::Python), said("other"));
    assert_eq!(
        answer(Language::Go),
        Err(RegistryError::UnsupportedLanguage {
            path: path.clone(),
            language: Language::Go,
        })
    );
    let revisions: Vec<(String, String)> = parsers
        .revisions()
        .into_iter()
        .map(|entry| (entry.language, entry.revision))
        .collect();
    assert_eq!(
        revisions,
        vec![
            ("python".to_owned(), "2".to_owned()),
            ("rust".to_owned(), "3".to_owned()),
        ]
    );
}

#[test]
fn the_least_path_in_the_way_of_an_assembly_is_reported() {
    let assembler = IndexAssembler::new(spec("least"));
    let good = |path: &str| parsed_with_local_call(path, local(0), local(1), false);
    let dangling = |path: &str| {
        let mut parsed = good(path);
        parsed.calls[0].target = ParsedTarget::Local(local(9));
        parsed
    };
    let blamed = |files: Vec<ParsedFile>| {
        assembler
            .assemble(files)
            .expect_err("refused")
            .path()
            .as_str()
            .to_owned()
    };
    assert_eq!(
        blamed(vec![good("e.rs"), dangling("d.rs"), good("b.rs"), good("a.rs"), good("b.rs")]),
        "b.rs"
    );
    assert_eq!(
        blamed(vec![good("c.rs"), dangling("d.rs"), dangling("a.rs"), good("c.rs")]),
        "a.rs"
    );
}

#[test]
fn a_second_run_reports_what_the_first_one_did() {
    let calls = Arc::new(AtomicUsize::new(0));
    let indexer = Indexer::new(ScanConfig::default(), registry(calls.clone()));
    let entries = [
        file("b.rs", b"fn run() {}\n"),
        file("a.rs", b"BROKEN\n"),
        file("c.rs", b"\xff\xfe"),
    ];
    let run = |cached: Option<CachedIndex>| {
        index(&indexer, &entries, spec("twice"), cached, &|| false, &|_| {})
            .expect("nothing cancels")
    };
    let (first, record) = run(None);
    assert_eq!(calls.load(Ordering::Relaxed), 2);
    assert_eq!(first.diagnostics.len(), 2);
    let (second, _) = run(record);
    assert_eq!(calls.load(Ordering::Relaxed), 2);
    assert!(second.cache_hit);
    assert_eq!(second.model, first.model);
    assert_eq!(second.counts, first.counts);
    assert_eq!(second.diagnostics, first.diagnostics);
}

#[test]
fn a_file_that_grows_while_it_is_read_is_skipped() {
    let config = ScanConfig {
        max_file_size: 4,
        ..ScanConfig::default()
    };
    let mut state = ScanState::start();
    let event = WalkEvent::Entry {
        depth: 1,
        path: entry_path("a.rs"),
        kind: Some(EntryKind::File),
    };
    let EntryAction::Inspect(pending) = state.on_entry(&config, event) else {
        panic!("a source file is inspected");
    };
    let metadata = MetadataReport::Found {
        regular: true,
        len: 4,
        modified: None,
    };
    let MetadataAction::Read { file, modified } = state.on_metadata(&config, pending, metadata)
    else {
        panic!("the file is small enough");
    };
    state.on_read(&config, file.clone(), modified, ReadReport::Bytes(b"12345".to_vec()));
    assert!(state.files.is_empty());
    assert_eq!(state.skipped_files, 1);
    assert_eq!(codes(&state.diagnostics), vec!["file_too_large"]);
    assert_eq!(
        state.diagnostics[0].message,
        "file grew beyond the configured limit while being read"
    );
    state.on_read(&config, file, modified, ReadReport::Bytes(b"1234".to_vec()));
    let result = state.finish(&config);
    assert_eq!(result.files.len(), 1);
    assert_eq!(result.files[0].source, "1234");
}

#[test]
fn a_panic_that_was_caught_is_reported() {
    let mut parsers = ParserRegistry::new();
    parsers.register(NamedParser {
        language: Language::Rust,
        name: "only",
    });
    let path = RepositoryPath::new("lib.rs".to_owned()).expect("canonical path");
    let input = ParseInput {
        path: &path,
        source: "text",
    };
    let panicking = |_: &NamedParser, _: ParseInput<'_>| {
        Err::<Result<ParsedFile, ParserError>, String>("boom".to_owned())
    };
    let returning = |adapter: &NamedParser, input: ParseInput<'_>| {
        Ok::<Result<ParsedFile, ParserError>, String>(adapter.parse(input))
    };
    assert_eq!(
        parsers.parse_guarded(&Language::Rust, input, &panicking),
        Err(RegistryError::Panicked {
            path: path.clone(),
            message: "boom".to_owned(),
        })
    );
    assert_eq!(
        parsers.parse_guarded(&Language::Rust, input, &returning),
        parsers.parse(&Language::Rust, input)
    );
    assert_eq!(
        parsers.parse_guarded(&Language::Go, input, &panicking),
        Err(RegistryError::UnsupportedLanguage {
            path: path.clone(),
            language: Language::Go,
        })
    );
}

#[test]
fn every_file_is_reported_as_progress() {
    let indexer = Indexer::new(
        ScanConfig::default(),
        registry(Arc::new(AtomicUsize::new(0))),
    );
    let entries = [file("b.rs", b"fn b() {}\n"), file("a.rs", b"fn a() {}\n")];
    let told = RefCell::new(Vec::new());
    let take = |step: Progress| {
        told.borrow_mut()
            .push((step.phase, step.message, step.completed, step.total));
    };
    index(&indexer, &entries, spec("told"), None, &|| false, &take).expect("nothing cancels");
    let expected = |phase: ProgressPhase, message: &str, completed: u64| {
        (phase, message.to_owned(), Some(completed), Some(2))
    };
    let told = told.into_inner();
    assert_eq!(
        told[2..],
        [
            expected(ProgressPhase::Parsing, "parsing a.rs", 0),
            expected(ProgressPhase::Parsing, "parsing b.rs", 1),
            expected(ProgressPhase::Parsing, "repository parsing complete", 2),
            expected(ProgressPhase::Indexing, "assembling a.rs", 0),
            expected(ProgressPhase::Indexing, "assembling b.rs", 1),
        ]
    );
}

#[test]
fn what_may_be_written_is_accepted_unchanged() {
    let model = IndexAssembler::new(spec("written"))
        .assemble(Vec::new())
        .expect("empty model should assemble");
    let cached = CachedIndex {
        fingerprint: "fingerprint".to_owned(),
        model,
        parsed_files: 1,
        skipped_files: 2,
        diagnostics: Vec::new(),
    };
    assert_eq!(check_writable(&cached), Ok(()));
    assert_eq!(accept_record(STORE_SCHEMA_VERSION, cached.clone()), Ok(cached));
}
