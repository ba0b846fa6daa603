//! The language-neutral model of a repository.
use crate::id::{
    CallEdgeId, EntryPointId, FileId, ImportEdgeId, ModuleId, ReferenceEdgeId, RepositoryId, SymbolId,
};
use crate::path::RepositoryPath;
use crate::schema::{SchemaError, SchemaVersion, SCHEMA_VERSION};
use crate::source::SourceSpan;
use crate::text;
use vstd::prelude::*;

verus! {

/// A programming language.
#[derive(Debug, PartialEq, Eq, Hash)]
pub enum Language {
    Rust,
    Python,
    C,
    Cpp,
    Java,
    JavaScript,
    TypeScript,
    Go,
    Other(String),
}

impl Clone for Language {
    fn clone(&self) -> (copy: Language)
        ensures
            copy == *self,
    {
        match self {
            Language::Rust => Language::Rust,
            Language::Python => Language::Python,
            Language::C => Language::C,
            Language::Cpp => Language::Cpp,
            Language::Java => Language::Java,
            Language::JavaScript => Language::JavaScript,
            Language::TypeScript => Language::TypeScript,
            Language::Go => Language::Go,
            Language::Other(value) => Language::Other(value.clone()),
        }
    }
}

impl Language {
    /// The text by which values of this kind are told apart in identities.
    pub open spec fn key(self) -> Seq<char> {
        match self {
            Language::Rust => "rust"@,
            Language::Python => "python"@,
            Language::C => "c"@,
            Language::Cpp => "cpp"@,
            Language::Java => "java"@,
            Language::JavaScript => "javascript"@,
            Language::TypeScript => "typescript"@,
            Language::Go => "go"@,
            Language::Other(value) => "other:"@ + value@,
        }
    }

    /// The text by which values of this kind are told apart in identities.
    pub fn key_text(&self) -> (key: String)
        ensures
            key@ == self.key(),
    {
        match self {
            Language::Rust => "rust".to_owned(),
            Language::Python => "python".to_owned(),
            Language::C => "c".to_owned(),
            Language::Cpp => "cpp".to_owned(),
            Language::Java => "java".to_owned(),
            Language::JavaScript => "javascript".to_owned(),
            Language::TypeScript => "typescript".to_owned(),
            Language::Go => "go".to_owned(),
            Language::Other(value) => {
                let mut key = "other:".to_owned();
                key.push_str(value.as_str());
                key
            },
        }
    }
}

impl Language {
    /// Tests whether two languages are the same.
    pub fn same(&self, other: &Language) -> (same: bool)
        ensures
            same == (self.key() == other.key()),
    {
        text::same_text(self.key_text().as_str(), other.key_text().as_str())
    }
}

/// What a symbol declares.
#[derive(Debug, PartialEq, Eq, Hash)]
pub enum SymbolKind {
    Function,
    Method,
    Struct,
    Class,
    Enum,
    Interface,
    Trait,
    Module,
    Namespace,
    Constant,
    Static,
    Variable,
    Field,
    Parameter,
    TypeAlias,
    Macro,
    Other(String),
}

impl Clone for SymbolKind {
    fn clone(&self) -> (copy: SymbolKind)
        ensures
            copy == *self,
    {
        match self {
            SymbolKind::Function => SymbolKind::Function,
            SymbolKind::Method => SymbolKind::Method,
            SymbolKind::Struct => SymbolKind::Struct,
            SymbolKind::Class => SymbolKind::Class,
            SymbolKind::Enum => SymbolKind::Enum,
            SymbolKind::Interface => SymbolKind::Interface,
            SymbolKind::Trait => SymbolKind::Trait,
            SymbolKind::Module => SymbolKind::Module,
            SymbolKind::Namespace => SymbolKind::Namespace,
            SymbolKind::Constant => SymbolKind::Constant,
            SymbolKind::Static => SymbolKind::Static,
            SymbolKind::Variable => SymbolKind::Variable,
            SymbolKind::Field => SymbolKind::Field,
            SymbolKind::Parameter => SymbolKind::Parameter,
            SymbolKind::TypeAlias => SymbolKind::TypeAlias,
            SymbolKind::Macro => SymbolKind::Macro,
            SymbolKind::Other(value) => SymbolKind::Other(value.clone()),
        }
    }
}

impl SymbolKind {
    /// The text by which values of this kind are told apart in identities.
    pub open spec fn key(self) -> Seq<char> {
        match self {
            SymbolKind::Function => "function"@,
            SymbolKind::Method => "method"@,
            SymbolKind::Struct => "struct"@,
            SymbolKind::Class => "class"@,
            SymbolKind::Enum => "enum"@,
            SymbolKind::Interface => "interface"@,
            SymbolKind::Trait => "trait"@,
            SymbolKind::Module => "module"@,
            SymbolKind::Namespace => "namespace"@,
            SymbolKind::Constant => "constant"@,
            SymbolKind::Static => "static"@,
            SymbolKind::Variable => "variable"@,
            SymbolKind::Field => "field"@,
            SymbolKind::Parameter => "parameter"@,
            SymbolKind::TypeAlias => "type_alias"@,
            SymbolKind::Macro => "macro"@,
            SymbolKind::Other(value) => "other:"@ + value@,
        }
    }

    /// The text by which values of this kind are told apart in identities.
    pub fn key_text(&self) -> (key: String)
        ensures
            key@ == self.key(),
    {
        match self {
            SymbolKind::Function => "function".to_owned(),
            SymbolKind::Method => "method".to_owned(),
            SymbolKind::Struct => "struct".to_owned(),
            SymbolKind::Class => "class".to_owned(),
            SymbolKind::Enum => "enum".to_owned(),
            SymbolKind::Interface => "interface".to_owned(),
            SymbolKind::Trait => "trait".to_owned(),
            SymbolKind::Module => "module".to_owned(),
            SymbolKind::Namespace => "namespace".to_owned(),
            SymbolKind::Constant => "constant".to_owned(),
            SymbolKind::Static => "static".to_owned(),
            SymbolKind::Variable => "variable".to_owned(),
            SymbolKind::Field => "field".to_owned(),
            SymbolKind::Parameter => "parameter".to_owned(),
            SymbolKind::TypeAlias => "type_alias".to_owned(),
            SymbolKind::Macro => "macro".to_owned(),
            SymbolKind::Other(value) => {
                let mut key = "other:".to_owned();
                key.push_str(value.as_str());
                key
            },
        }
    }
}

#[derive(Debug, PartialEq, Eq)]
pub struct FileInfo {
    pub id: FileId,
    pub path: RepositoryPath,
    pub language: Language,
}

impl Clone for FileInfo {
    fn clone(&self) -> (copy: FileInfo)
        ensures
            copy == *self,
    {
        FileInfo {
            id: self.id,
            path: self.path.clone(),
            language: self.language.clone(),
        }
    }
}

#[derive(Debug, PartialEq, Eq)]
pub struct Module {
    pub id: ModuleId,
    pub name: String,
    pub qualified_name: String,
    pub file_id: FileId,
    pub span: Option<SourceSpan>,
    pub parent_id: Option<ModuleId>,
}

impl Clone for Module {
    fn clone(&self) -> (copy: Module)
        ensures
            copy == *self,
    {
        Module {
            id: self.id,
            name: self.name.clone(),
            qualified_name: self.qualified_name.clone(),
            file_id: self.file_id,
            span: self.span,
            parent_id: self.parent_id,
        }
    }
}

#[derive(Debug, PartialEq, Eq)]
pub struct Symbol {
    pub id: SymbolId,
    pub name: String,
    pub qualified_name: String,
    pub kind: SymbolKind,
    pub file_id: FileId,
    pub module_id: Option<ModuleId>,
    pub span: SourceSpan,
    pub parent_id: Option<SymbolId>,
}

impl Clone for Symbol {
    fn clone(&self) -> (copy: Symbol)
        ensures
            copy == *self,
    {
        Symbol {
            id: self.id,
            name: self.name.clone(),
            qualified_name: self.qualified_name.clone(),
            kind: self.kind.clone(),
            file_id: self.file_id,
            module_id: self.module_id,
            span: self.span,
            parent_id: self.parent_id,
        }
    }
}

#[derive(Debug, PartialEq, Eq)]
pub struct UnresolvedTarget {
    pub name: String,
    pub reason: Option<String>,
}

impl Clone for UnresolvedTarget {
    fn clone(&self) -> (copy: UnresolvedTarget)
        ensures
            copy == *self,
    {
        UnresolvedTarget {
            name: self.name.clone(),
            reason: text::copy_option(&self.reason),
        }
    }
}

#[derive(Debug, PartialEq, Eq)]
pub enum TargetResolution<T> {
    Resolved(T),
    Unresolved(UnresolvedTarget),
}

impl<T: Copy> Clone for TargetResolution<T> {
    fn clone(&self) -> (copy: TargetResolution<T>)
        ensures
            copy == *self,
    {
        match self {
            TargetResolution::Resolved(target) => TargetResolution::Resolved(*target),
            TargetResolution::Unresolved(target) => TargetResolution::Unresolved(target.clone()),
        }
    }
}

impl<T> TargetResolution<T> {
    pub fn is_resolved(&self) -> (resolved: bool)
        ensures
            resolved == (self is Resolved),
    {
        match self {
            TargetResolution::Resolved(_) => true,
            TargetResolution::Unresolved(_) => false,
        }
    }
}

#[derive(Debug, Clone, Copy, PartialEq, Eq, Structural)]
pub enum ImportItem {
    Module(ModuleId),
    Symbol(SymbolId),
}

#[derive(Debug, PartialEq, Eq)]
pub struct ImportEdge {
    pub id: ImportEdgeId,
    pub source_file_id: FileId,
    pub source_module_id: Option<ModuleId>,
    pub target: TargetResolution<ImportItem>,
    pub span: SourceSpan,
    pub alias: Option<String>,
}

impl Clone for ImportEdge {
    fn clone(&self) -> (copy: ImportEdge)
        ensures
            copy == *self,
    {
        ImportEdge {
            id: self.id,
            source_file_id: self.source_file_id,
            source_module_id: self.source_module_id,
            target: self.target.clone(),
            span: self.span,
            alias: text::copy_option(&self.alias),
        }
    }
}

/// How a symbol is referred to.
#[derive(Debug, PartialEq, Eq, Hash)]
pub enum ReferenceKind {
    Read,
    Write,
    Type,
    Inheritance,
    Implementation,
    Other(String),
}

impl Clone for ReferenceKind {
    fn clone(&self) -> (copy: ReferenceKind)
        ensures
            copy == *self,
    {
        match self {
            ReferenceKind::Read => ReferenceKind::Read,
            ReferenceKind::Write => ReferenceKind::Write,
            ReferenceKind::Type => ReferenceKind::Type,
            ReferenceKind::Inheritance => ReferenceKind::Inheritance,
            ReferenceKind::Implementation => ReferenceKind::Implementation,
            ReferenceKind::Other(value) => ReferenceKind::Other(value.clone()),
        }
    }
}

impl ReferenceKind {
    /// The text by which values of this kind are told apart in identities.
    pub open spec fn key(self) -> Seq<char> {
        match self {
            ReferenceKind::Read => "read"@,
            ReferenceKind::Write => "write"@,
            ReferenceKind::Type => "type"@,
            ReferenceKind::Inheritance => "inheritance"@,
            ReferenceKind::Implementation => "implementation"@,
            ReferenceKind::Other(value) => "other:"@ + value@,
        }
    }

    /// The text by which values of this kind are told apart in identities.
    pub fn key_text(&self) -> (key: String)
        ensures
            key@ == self.key(),
    {
        match self {
            ReferenceKind::Read => "read".to_owned(),
            ReferenceKind::Write => "write".to_owned(),
            ReferenceKind::Type => "type".to_owned(),
            ReferenceKind::Inheritance => "inheritance".to_owned(),
            ReferenceKind::Implementation => "implementation".to_owned(),
            ReferenceKind::Other(value) => {
                let mut key = "other:".to_owned();
                key.push_str(value.as_str());
                key
            },
        }
    }
}

#[derive(Debug, PartialEq, Eq)]
pub struct ReferenceEdge {
    pub id: ReferenceEdgeId,
    pub source_file_id: FileId,
    pub source_symbol_id: Option<SymbolId>,
    pub target: TargetResolution<SymbolId>,
    pub kind: ReferenceKind,
    pub span: SourceSpan,
}

impl Clone for ReferenceEdge {
    fn clone(&self) -> (copy: ReferenceEdge)
        ensures
            copy == *self,
    {
        ReferenceEdge {
            id: self.id,
            source_file_id: self.source_file_id,
            source_symbol_id: self.source_symbol_id,
            target: self.target.clone(),
            kind: self.kind.clone(),
            span: self.span,
        }
    }
}

/// Optional parser or resolver confidence constrained to the inclusive range
/// 0..=1, held as the IEEE 754 bits of a 32-bit number.
#[derive(Debug, Clone, Copy, Eq)]
pub struct Confidence {
    bits: u32,
}

#[derive(Debug, Clone, Copy, PartialEq, Eq, Structural)]
pub struct ConfidenceError {
    pub bits: u32,
}

/// The bits of the 32-bit numbers that are finite and between 0 and 1. The bits
/// of non-negative numbers are ordered as the numbers are; `0x3f80_0000` is 1, and
/// `0x8000_0000` is negative zero, which equals 0.
pub open spec fn confidence_bits(bits: u32) -> bool {
    bits <= 0x3f80_0000 || bits == 0x8000_0000
}

/// The bits by which confidences are compared: negative zero counts as 0.
pub open spec fn confidence_rank(bits: u32) -> u32 {
    if bits == 0x8000_0000 {
        0
    } else {
        bits
    }
}

impl PartialEq for Confidence {
    fn eq(&self, other: &Confidence) -> (equal: bool) {
        self.rank() == other.rank()
    }
}

impl vstd::std_specs::cmp::PartialEqSpecImpl for Confidence {
    open spec fn obeys_eq_spec() -> bool {
        true
    }

    open spec fn eq_spec(&self, other: &Confidence) -> bool {
        confidence_rank(self@) == confidence_rank(other@)
    }
}

impl PartialOrd for Confidence {
    fn partial_cmp(&self, other: &Confidence) -> (order: Option<std::cmp::Ordering>) {
        let (left, right) = (self.rank(), other.rank());
        if left < right {
            Some(std::cmp::Ordering::Less)
        } else if left == right {
            Some(std::cmp::Ordering::Equal)
        } else {
            Some(std::cmp::Ordering::Greater)
        }
    }
}

impl vstd::std_specs::cmp::PartialOrdSpecImpl for Confidence {
    open spec fn obeys_partial_cmp_spec() -> bool {
        true
    }

    open spec fn partial_cmp_spec(&self, other: &Confidence) -> Option<std::cmp::Ordering> {
        if confidence_rank(self@) < confidence_rank(other@) {
            Some(std::cmp::Ordering::Less)
        } else if confidence_rank(self@) == confidence_rank(other@) {
            Some(std::cmp::Ordering::Equal)
        } else {
            Some(std::cmp::Ordering::Greater)
        }
    }
}

impl View for Confidence {
    type V = u32;

    closed spec fn view(&self) -> u32 {
        self.bits
    }
}

impl Confidence {
    #[verifier::type_invariant]
    spec fn in_unit_range(self) -> bool {
        confidence_bits(self.bits)
    }

    /// Creates a confidence value from the bits of a 32-bit number.
    pub fn new(bits: u32) -> (confidence: Result<Confidence, ConfidenceError>)
        ensures
            match confidence {
                Ok(confidence) => confidence_bits(bits) && confidence@ == bits,
                Err(error) => !confidence_bits(bits) && error.bits == bits,
            },
    {
        if bits <= 0x3f80_0000 || bits == 0x8000_0000 {
            Ok(Confidence { bits })
        } else {
            Err(ConfidenceError { bits })
        }
    }

    fn rank(&self) -> (rank: u32)
        ensures
            rank == confidence_rank(self@),
    {
        if self.bits == 0x8000_0000 {
            0
        } else {
            self.bits
        }
    }

    /// The bits of the confidence value.
    pub fn value(self) -> (bits: u32)
        ensures
            bits == self@,
            confidence_bits(bits),
    {
        proof {
            use_type_invariant(self);
        }
        self.bits
    }
}

#[derive(Debug, PartialEq, Eq)]
pub struct CallEdge {
    pub id: CallEdgeId,
    pub source_file_id: FileId,
    pub caller_id: Option<SymbolId>,
    pub target: TargetResolution<SymbolId>,
    pub span: SourceSpan,
    pub confidence: Option<Confidence>,
}

impl Clone for CallEdge {
    fn clone(&self) -> (copy: CallEdge)
        ensures
            copy == *self,
    {
        CallEdge {
            id: self.id,
            source_file_id: self.source_file_id,
            caller_id: self.caller_id,
            target: self.target.clone(),
            span: self.span,
            confidence: self.confidence,
        }
    }
}

/// How a program is entered.
#[derive(Debug, PartialEq, Eq, Hash)]
pub enum EntryPointKind {
    Executable,
    Library,
    Test,
    Benchmark,
    WebRoute,
    BackgroundTask,
    Other(String),
}

impl Clone for EntryPointKind {
    fn clone(&self) -> (copy: EntryPointKind)
        ensures
            copy == *self,
    {
        match self {
            EntryPointKind::Executable => EntryPointKind::Executable,
            EntryPointKind::Library => EntryPointKind::Library,
            EntryPointKind::Test => EntryPointKind::Test,
            EntryPointKind::Benchmark => EntryPointKind::Benchmark,
            EntryPointKind::WebRoute => EntryPointKind::WebRoute,
            EntryPointKind::BackgroundTask => EntryPointKind::BackgroundTask,
            EntryPointKind::Other(value) => EntryPointKind::Other(value.clone()),
        }
    }
}

impl EntryPointKind {
    /// The text by which values of this kind are told apart in identities.
    pub open spec fn key(self) -> Seq<char> {
        match self {
            EntryPointKind::Executable => "executable"@,
            EntryPointKind::Library => "library"@,
            EntryPointKind::Test => "test"@,
            EntryPointKind::Benchmark => "benchmark"@,
            EntryPointKind::WebRoute => "web_route"@,
            EntryPointKind::BackgroundTask => "background_task"@,
            EntryPointKind::Other(value) => "other:"@ + value@,
        }
    }

    /// The text by which values of this kind are told apart in identities.
    pub fn key_text(&self) -> (key: String)
        ensures
            key@ == self.key(),
    {
        match self {
            EntryPointKind::Executable => "executable".to_owned(),
            EntryPointKind::Library => "library".to_owned(),
            EntryPointKind::Test => "test".to_owned(),
            EntryPointKind::Benchmark => "benchmark".to_owned(),
            EntryPointKind::WebRoute => "web_route".to_owned(),
            EntryPointKind::BackgroundTask => "background_task".to_owned(),
            EntryPointKind::Other(value) => {
                let mut key = "other:".to_owned();
                key.push_str(value.as_str());
                key
            },
        }
    }
}

#[derive(Debug, PartialEq, Eq)]
pub struct EntryPoint {
    pub id: EntryPointId,
    pub kind: EntryPointKind,
    pub label: String,
    pub file_id: FileId,
    pub symbol_id: Option<SymbolId>,
    pub span: SourceSpan,
}

impl Clone for EntryPoint {
    fn clone(&self) -> (copy: EntryPoint)
        ensures
            copy == *self,
    {
        EntryPoint {
            id: self.id,
            kind: self.kind.clone(),
            label: self.label.clone(),
            file_id: self.file_id,
            symbol_id: self.symbol_id,
            span: self.span,
        }
    }
}

#[derive(Debug, PartialEq, Eq)]
pub struct RepositoryModel {
    pub schema_version: SchemaVersion,
    pub repository_id: RepositoryId,
    pub name: String,
    pub files: Vec<FileInfo>,
    pub modules: Vec<Module>,
    pub symbols: Vec<Symbol>,
    pub imports: Vec<ImportEdge>,
    pub references: Vec<ReferenceEdge>,
    pub calls: Vec<CallEdge>,
    pub entry_points: Vec<EntryPoint>,
}

/// Whether two models hold the same records in the same order.
pub open spec fn same_model(left: RepositoryModel, right: RepositoryModel) -> bool {
    &&& left.schema_version == right.schema_version
    &&& left.repository_id == right.repository_id
    &&& left.name@ == right.name@
    &&& left.files@ == right.files@
    &&& left.modules@ == right.modules@
    &&& left.symbols@ == right.symbols@
    &&& left.imports@ == right.imports@
    &&& left.references@ == right.references@
    &&& left.calls@ == right.calls@
    &&& left.entry_points@ == right.entry_points@
}

impl Clone for RepositoryModel {
    fn clone(&self) -> (copy: RepositoryModel)
        ensures
            same_model(copy, *self),
    {
        let copy = RepositoryModel {
            schema_version: self.schema_version,
            repository_id: self.repository_id,
            name: self.name.clone(),
            files: self.files.clone(),
            modules: self.modules.clone(),
            symbols: self.symbols.clone(),
            imports: self.imports.clone(),
            references: self.references.clone(),
            calls: self.calls.clone(),
            entry_points: self.entry_points.clone(),
        };
        assert(copy.files@ =~= self.files@);
        assert(copy.modules@ =~= self.modules@);
        assert(copy.symbols@ =~= self.symbols@);
        assert(copy.imports@ =~= self.imports@);
        assert(copy.references@ =~= self.references@);
        assert(copy.calls@ =~= self.calls@);
        assert(copy.entry_points@ =~= self.entry_points@);
        copy
    }
}

impl RepositoryModel {
    /// A model of the current schema that holds no records.
    pub fn empty(repository_id: RepositoryId, name: String) -> (model: RepositoryModel)
        ensures
            model.schema_version.value == SCHEMA_VERSION,
            model.repository_id == repository_id,
            model.name == name,
            model.files@ == Seq::<FileInfo>::empty(),
            model.modules@ == Seq::<Module>::empty(),
            model.symbols@ == Seq::<Symbol>::empty(),
            model.imports@ == Seq::<ImportEdge>::empty(),
            model.references@ == Seq::<ReferenceEdge>::empty(),
            model.calls@ == Seq::<CallEdge>::empty(),
            model.entry_points@ == Seq::<EntryPoint>::empty(),
    {
        RepositoryModel {
            schema_version: SchemaVersion::current(),
            repository_id,
            name,
            files: Vec::new(),
            modules: Vec::new(),
            symbols: Vec::new(),
            imports: Vec::new(),
            references: Vec::new(),
            calls: Vec::new(),
            entry_points: Vec::new(),
        }
    }

    /// Checks whether the model uses this crate's current persistence schema.
    pub fn validate_schema(&self) -> (outcome: Result<(), SchemaError>)
        ensures
            outcome == (if self.schema_version.value == SCHEMA_VERSION {
                Ok::<(), SchemaError>(())
            } else {
                Err(
                    SchemaError::Unsupported {
                        expected: SchemaVersion { value: SCHEMA_VERSION },
                        actual: self.schema_version,
                    },
                )
            }),
    {
        self.schema_version.ensure_current()
    }
}

} // verus!
