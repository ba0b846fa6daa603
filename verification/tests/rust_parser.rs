//! What is extracted from Rust sources.
use codeatlas::ir::{EntryPointKind, Language, SymbolKind};
use codeatlas::lang_rust::RustParser;
use codeatlas::parser::{ParseInput, ParsedFile, ParsedTarget, ParserAdapter};
use codeatlas::path::RepositoryPath;

const FULL: &str = r##"use std::fmt::Debug as DebugTrait;

mod nested {
    pub fn nested_helper() {}
}

struct Widget;
enum State {
    Ready,
    Done,
}

trait Runner {
    fn run(&self);

    fn defaulted(&self) {
        helper_call();
    }
}

impl Runner for Widget {
    fn run(&self) {
        helper_call();
        self.method();
    }
}

impl Widget {
    fn method(&self) {}
}

type WidgetAlias = Widget;
const LIMIT: usize = 10;
static ENABLED: bool = true;

macro_rules! announce {
    () => {};
}

fn helper_call() {}

fn main() {
    helper_call();
}

#[test]
fn parses_repository() {
    helper_call();
}

#[bench]
fn measures_repository() {}
"##;

const UNICODE: &str = "fn café() {}\nfn run() {\n    let _x = café();\n}\n";

fn parse_fixture(path: &str, source: &str) -> ParsedFile {
    let path = RepositoryPath::new(path.to_owned()).expect("fixture path should be canonical");
    RustParser::new()
        .parse(ParseInput {
            path: &path,
            source,
        })
        .expect("fixture should parse")
}

#[test]
fn extracts_rust_symbols_imports_calls_and_entry_points() {
    let parsed = parse_fixture("src/main.rs", FULL);

    for (name, kind) in [
        ("nested", SymbolKind::Module),
        ("nested_helper", SymbolKind::Function),
        ("Widget", SymbolKind::Struct),
        ("State", SymbolKind::Enum),
        ("Runner", SymbolKind::Trait),
        ("run", SymbolKind::Method),
        ("WidgetAlias", SymbolKind::TypeAlias),
        ("LIMIT", SymbolKind::Constant),
        ("ENABLED", SymbolKind::Static),
        ("announce", SymbolKind::Macro),
    ] {
        assert!(
            parsed
                .symbols
                .iter()
                .any(|symbol| symbol.name == name && symbol.kind == kind),
            "missing {kind:?} {name}"
        );
    }
    assert!(
        parsed
            .symbols
            .iter()
            .any(|symbol| symbol.kind == SymbolKind::Other("impl".to_owned()))
    );
    assert_eq!(parsed.imports.len(), 1);
    assert_eq!(parsed.imports[0].target, "std::fmt::Debug");
    assert_eq!(parsed.imports[0].alias.as_deref(), Some("DebugTrait"));
    assert!(!parsed.references.is_empty());
    assert!(
        parsed
            .references
            .iter()
            .any(|reference| matches!(reference.target, ParsedTarget::Local(_)))
    );
    assert!(
        parsed
            .calls
            .iter()
            .any(|call| matches!(call.target, ParsedTarget::Local(_)))
    );
    assert!(parsed.calls.iter().any(
        |call| matches!(&call.target, ParsedTarget::Unresolved(name) if name == "self.method")
    ));

    for kind in [
        EntryPointKind::Executable,
        EntryPointKind::Test,
        EntryPointKind::Benchmark,
    ] {
        assert!(
            parsed.entry_points.iter().any(|entry| entry.kind == kind),
            "missing {kind:?} entry point"
        );
    }
}

#[test]
fn spans_use_one_based_lines_and_utf8_byte_columns() {
    let parsed = parse_fixture("src/unicode.rs", UNICODE);
    let unicode_call = parsed
        .calls
        .iter()
        .find(|call| {
            matches!(
                call.target,
                ParsedTarget::Local(local_id)
                    if parsed.symbols.iter().any(|symbol| {
                        symbol.local_id == local_id && symbol.name == "café"
                    })
            )
        })
        .expect("unicode call should be extracted");

    assert_eq!(unicode_call.span.start().line(), 3);
    assert_eq!(unicode_call.span.start().column(), 13);
    assert_eq!(unicode_call.span.end().line(), 3);
    assert_eq!(unicode_call.span.end().column(), 20);
}

#[test]
fn syntax_errors_are_reported() {
    let path = RepositoryPath::new("src/broken.rs".to_owned()).expect("canonical path");
    let error = RustParser::new()
        .parse(ParseInput {
            path: &path,
            source: "fn broken(",
        })
        .expect_err("invalid Rust should fail");
    assert_eq!(error.path, path);
    assert!(error.message.contains("syntax errors"));
}

#[test]
fn parses_repository() {
    let parsed = parse_fixture("src/main.rs", FULL);
    assert_eq!(parsed.language, Language::Rust);
    assert_eq!(RustParser::new().language(), Language::Rust);
    let test = parsed
        .entry_points
        .iter()
        .find(|entry| entry.kind == EntryPointKind::Test)
        .expect("the test is an entry point");
    let tested = parsed
        .symbols
        .iter()
        .find(|symbol| Some(symbol.local_id) == test.symbol_id)
        .expect("the entry point leads to its function");
    assert_eq!(tested.name, "parses_repository");
    let helper = parsed
        .symbols
        .iter()
        .find(|symbol| symbol.name == "helper_call")
        .expect("the helper is a symbol");
    assert!(parsed.calls.iter().any(|call| {
        call.caller_id == Some(tested.local_id)
            && call.target == ParsedTarget::Local(helper.local_id)
    }));
}

#[test]
fn modules_are_named_after_their_files() {
    let module = |path: &str| {
        parse_fixture(path, "fn run() {}\n")
            .module
            .map(|module| (module.name, module.qualified_name))
    };
    let named = |name: &str, qualified: &str| Some((name.to_owned(), qualified.to_owned()));
    assert_eq!(module("src/lib.rs"), named("crate", "crate"));
    assert_eq!(module("src/parser/mod.rs"), named("parser", "crate::parser"));
    assert_eq!(module("src/parser/lexer.rs"), named("lexer", "crate::parser::lexer"));
}

#[test]
fn imports_are_named_as_they_are_written() {
    let parsed = parse_fixture(
        "src/lib.rs",
        "use std::{fmt::{self, Debug as D}, io::*};\nuse crate::a as b;\n",
    );
    let imports: Vec<_> = parsed
        .imports
        .iter()
        .map(|import| (import.target.as_str(), import.alias.as_deref()))
        .collect();
    assert_eq!(
        imports,
        [
            ("std::{fmt::{self, Debug as D}, io::*}", None),
            ("crate::a", Some("b")),
        ]
    );
}
