//! What a parser reports of one source file.
use crate::ir::{Confidence, EntryPointKind, Language, ReferenceKind, SymbolKind};
use crate::path::RepositoryPath;
use crate::source::SourceSpan;
use vstd::prelude::*;

verus! {

/// Borrowed source passed to a synchronous parser adapter.
#[derive(Debug, Clone, Copy)]
pub struct ParseInput<'a> {
    pub path: &'a RepositoryPath,
    pub source: &'a str,
}

/// File-local identity assigned by a parser to connect its parsed records.
///
/// It is not a persistent repository ID. The index assembly layer maps these
/// values to stable global IDs using repository paths and canonical symbol keys.
#[derive(Debug, Clone, Copy, PartialEq, Eq, PartialOrd, Ord, Hash, Structural)]
pub struct ParsedSymbolId(pub u32);

#[derive(Debug, PartialEq, Eq)]
pub enum ParsedTarget {
    Local(ParsedSymbolId),
    Unresolved(String),
}

impl Clone for ParsedTarget {
    fn clone(&self) -> (copy: ParsedTarget)
        ensures
            copy == *self,
    {
        match self {
            ParsedTarget::Local(id) => ParsedTarget::Local(*id),
            ParsedTarget::Unresolved(name) => ParsedTarget::Unresolved(name.clone()),
        }
    }
}

#[derive(Debug, Clone, PartialEq, Eq)]
pub struct ParsedModule {
    pub name: String,
    pub qualified_name: String,
    pub span: Option<SourceSpan>,
}

#[derive(Debug, Clone, PartialEq, Eq)]
pub struct ParsedSymbol {
    pub local_id: ParsedSymbolId,
    pub name: String,
    pub qualified_name: String,
    pub kind: SymbolKind,
    pub span: SourceSpan,
    pub parent_id: Option<ParsedSymbolId>,
}

#[derive(Debug, Clone, PartialEq, Eq)]
pub struct ParsedImport {
    pub target: String,
    pub span: SourceSpan,
    pub alias: Option<String>,
}

#[derive(Debug, Clone, PartialEq, Eq)]
pub struct ParsedReference {
    pub source_id: Option<ParsedSymbolId>,
    pub target: ParsedTarget,
    pub kind: ReferenceKind,
    pub span: SourceSpan,
}

#[derive(Debug, Clone, PartialEq, Eq)]
pub struct ParsedCall {
    pub caller_id: Option<ParsedSymbolId>,
    pub target: ParsedTarget,
    pub span: SourceSpan,
    pub confidence: Option<Confidence>,
}

#[derive(Debug, Clone, PartialEq, Eq)]
pub struct ParsedEntryPoint {
    pub kind: EntryPointKind,
    pub label: String,
    pub symbol_id: Option<ParsedSymbolId>,
    pub span: SourceSpan,
}

/// Language-neutral output for one source file.
#[derive(Debug, Clone, PartialEq, Eq)]
pub struct ParsedFile {
    pub path: RepositoryPath,
    pub language: Language,
    pub module: Option<ParsedModule>,
    pub symbols: Vec<ParsedSymbol>,
    pub imports: Vec<ParsedImport>,
    pub references: Vec<ParsedReference>,
    pub calls: Vec<ParsedCall>,
    pub entry_points: Vec<ParsedEntryPoint>,
}

impl ParsedFile {
    /// A parsed file without any records.
    pub fn empty(path: RepositoryPath, language: Language) -> (file: ParsedFile)
        ensures
            file.path == path,
            file.language == language,
            file.module is None,
            file.symbols@ == Seq::<ParsedSymbol>::empty(),
            file.imports@ == Seq::<ParsedImport>::empty(),
            file.references@ == Seq::<ParsedReference>::empty(),
            file.calls@ == Seq::<ParsedCall>::empty(),
            file.entry_points@ == Seq::<ParsedEntryPoint>::empty(),
    {
        ParsedFile {
            path,
            language,
            module: None,
            symbols: Vec::new(),
            imports: Vec::new(),
            references: Vec::new(),
            calls: Vec::new(),
            entry_points: Vec::new(),
        }
    }
}

/// The range of a record: first and last line and column.
pub type Range = ((u32, u32), (u32, u32));

/// The kind of a symbol.
#[verifier::ext_equal]
pub enum KindShown {
    Known(SymbolKind),
    Other(Seq<char>),
}

/// The kind of a symbol; names of other kinds are told by their text.
pub open spec fn kind_shown(kind: SymbolKind) -> KindShown {
    match kind {
        SymbolKind::Other(name) => KindShown::Other(name@),
        _ => KindShown::Known(kind),
    }
}

/// The target of a reference or a call.
#[verifier::ext_equal]
pub enum TargetShown {
    Local(ParsedSymbolId),
    Unresolved(Seq<char>),
}

impl View for ParsedTarget {
    type V = TargetShown;

    open spec fn view(&self) -> TargetShown {
        match *self {
            ParsedTarget::Local(id) => TargetShown::Local(id),
            ParsedTarget::Unresolved(name) => TargetShown::Unresolved(name@),
        }
    }
}

#[verifier::ext_equal]
pub struct ModuleShown {
    pub name: Seq<char>,
    pub qualified_name: Seq<char>,
    pub span: Option<Range>,
}

impl View for ParsedModule {
    type V = ModuleShown;

    open spec fn view(&self) -> ModuleShown {
        ModuleShown {
            name: self.name@,
            qualified_name: self.qualified_name@,
            span: match self.span {
                Some(span) => Some(span@),
                None => None,
            },
        }
    }
}

#[verifier::ext_equal]
pub struct SymbolShown {
    pub local_id: ParsedSymbolId,
    pub name: Seq<char>,
    pub qualified_name: Seq<char>,
    pub kind: KindShown,
    pub span: Range,
    pub parent_id: Option<ParsedSymbolId>,
}

impl View for ParsedSymbol {
    type V = SymbolShown;

    open spec fn view(&self) -> SymbolShown {
        SymbolShown {
            local_id: self.local_id,
            name: self.name@,
            qualified_name: self.qualified_name@,
            kind: kind_shown(self.kind),
            span: self.span@,
            parent_id: self.parent_id,
        }
    }
}

#[verifier::ext_equal]
pub struct ImportShown {
    pub target: Seq<char>,
    pub span: Range,
    pub alias: Option<Seq<char>>,
}

impl View for ParsedImport {
    type V = ImportShown;

    open spec fn view(&self) -> ImportShown {
        ImportShown {
            target: self.target@,
            span: self.span@,
            alias: match self.alias {
                Some(alias) => Some(alias@),
                None => None,
            },
        }
    }
}

#[verifier::ext_equal]
pub struct ReferenceShown {
    pub source_id: Option<ParsedSymbolId>,
    pub target: TargetShown,
    pub kind: ReferenceKind,
    pub span: Range,
}

impl View for ParsedReference {
    type V = ReferenceShown;

    open spec fn view(&self) -> ReferenceShown {
        ReferenceShown {
            source_id: self.source_id,
            target: self.target@,
            kind: self.kind,
            span: self.span@,
        }
    }
}

#[verifier::ext_equal]
pub struct CallShown {
    pub caller_id: Option<ParsedSymbolId>,
    pub target: TargetShown,
    pub span: Range,
    pub confidence: Option<Confidence>,
}

impl View for ParsedCall {
    type V = CallShown;

    open spec fn view(&self) -> CallShown {
        CallShown {
            caller_id: self.caller_id,
            target: self.target@,
            span: self.span@,
            confidence: self.confidence,
        }
    }
}

#[verifier::ext_equal]
pub struct EntryShown {
    pub kind: EntryPointKind,
    pub label: Seq<char>,
    pub symbol_id: Option<ParsedSymbolId>,
    pub span: Range,
}

impl View for ParsedEntryPoint {
    type V = EntryShown;

    open spec fn view(&self) -> EntryShown {
        EntryShown {
            kind: self.kind,
            label: self.label@,
            symbol_id: self.symbol_id,
            span: self.span@,
        }
    }
}

/// What a parser reports of one file.
#[verifier::ext_equal]
pub struct FileShown {
    pub path: RepositoryPath,
    pub language: Language,
    pub module: Option<ModuleShown>,
    pub symbols: Seq<SymbolShown>,
    pub imports: Seq<ImportShown>,
    pub references: Seq<ReferenceShown>,
    pub calls: Seq<CallShown>,
    pub entry_points: Seq<EntryShown>,
}

pub open spec fn symbols_shown(symbols: Seq<ParsedSymbol>) -> Seq<SymbolShown> {
    symbols.map_values(|symbol: ParsedSymbol| symbol@)
}

pub open spec fn imports_shown(imports: Seq<ParsedImport>) -> Seq<ImportShown> {
    imports.map_values(|import: ParsedImport| import@)
}

pub open spec fn references_shown(references: Seq<ParsedReference>) -> Seq<ReferenceShown> {
    references.map_values(|reference: ParsedReference| reference@)
}

pub open spec fn calls_shown(calls: Seq<ParsedCall>) -> Seq<CallShown> {
    calls.map_values(|call: ParsedCall| call@)
}

pub open spec fn entries_shown(entries: Seq<ParsedEntryPoint>) -> Seq<EntryShown> {
    entries.map_values(|entry: ParsedEntryPoint| entry@)
}

impl View for ParsedFile {
    type V = FileShown;

    open spec fn view(&self) -> FileShown {
        FileShown {
            path: self.path,
            language: self.language,
            module: match self.module {
                Some(module) => Some(module@),
                None => None,
            },
            symbols: symbols_shown(self.symbols@),
            imports: imports_shown(self.imports@),
            references: references_shown(self.references@),
            calls: calls_shown(self.calls@),
            entry_points: entries_shown(self.entry_points@),
        }
    }
}

/// Synchronous boundary implemented by language-specific parsers.
///
/// Implementations parse one file and must preserve unresolved names in
/// [`ParsedTarget::Unresolved`]. They do not assign global IDs or build a
/// complete repository model.
pub trait ParserAdapter: Send + Sync {
    /// The language that this adapter parses.
    fn language(&self) -> Language;

    /// Parses one source file into language-neutral records.
    fn parse(&self, input: ParseInput<'_>) -> Result<ParsedFile, ParserError>;
}

#[derive(Debug, Clone, PartialEq, Eq)]
pub struct ParserError {
    pub path: RepositoryPath,
    pub message: String,
}

} // verus!
