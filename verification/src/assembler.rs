//! Assembly of parsed files into a repository model with stable identities.
use crate::checks;
use crate::id;
use crate::id::{
    CallEdgeId, EntryPointId, FileId, ImportEdgeId, ModuleId, ReferenceEdgeId, RepositoryId, SymbolId,
};
use crate::ir::{
    CallEdge, EntryPoint, FileInfo, ImportEdge, Module, ReferenceEdge, RepositoryModel, Symbol,
    TargetResolution, UnresolvedTarget,
};
use crate::layout;
use crate::parser::{
    ParsedCall, ParsedEntryPoint, ParsedFile, ParsedReference, ParsedSymbol, ParsedSymbolId,
    ParsedTarget,
};
use crate::path::RepositoryPath;
use crate::schema::SCHEMA_VERSION;
use crate::sort;
use crate::sort::Ordered;
use crate::source::SourceSpan;
use crate::text;
use vstd::prelude::*;

verus! {

/// The name of a repository and the key of its identity.
#[derive(Debug, PartialEq, Eq)]
pub struct RepositorySpec {
    pub name: String,
    pub stable_key: String,
}

impl Clone for RepositorySpec {
    fn clone(&self) -> (copy: RepositorySpec)
        ensures
            copy == *self,
    {
        RepositorySpec { name: self.name.clone(), stable_key: self.stable_key.clone() }
    }
}

impl RepositorySpec {
    pub fn new(name: String, stable_key: String) -> (spec: RepositorySpec)
        ensures
            spec.name == name,
            spec.stable_key == stable_key,
    {
        RepositorySpec { name, stable_key }
    }

    /// The identity of the repository.
    pub open spec fn identity(self) -> RepositoryId {
        RepositoryId::of(seq![self.stable_key@])
    }

    pub fn repository_id(&self) -> (id: RepositoryId)
        ensures
            id == self.identity(),
    {
        let mut parts: Vec<&str> = Vec::new();
        parts.push(self.stable_key.as_str());
        assert(text::views(parts@) =~= seq![self.stable_key@]);
        RepositoryId::from_stable_parts(parts.as_slice())
    }
}

#[derive(Debug, Clone, PartialEq, Eq)]
pub enum AssemblyError {
    DuplicateFile { path: RepositoryPath },
    DuplicateLocalSymbolId { path: RepositoryPath, local_id: ParsedSymbolId },
    DanglingLocalSymbolId {
        path: RepositoryPath,
        local_id: ParsedSymbolId,
        relation: &'static str,
    },
}

impl AssemblyError {
    /// The file that an error is about.
    pub open spec fn concerns(self) -> RepositoryPath {
        match self {
            AssemblyError::DuplicateFile { path } => path,
            AssemblyError::DuplicateLocalSymbolId { path, .. } => path,
            AssemblyError::DanglingLocalSymbolId { path, .. } => path,
        }
    }

    pub fn path(&self) -> (path: &RepositoryPath)
        ensures
            *path == self.concerns(),
    {
        match self {
            AssemblyError::DuplicateFile { path } => path,
            AssemblyError::DuplicateLocalSymbolId { path, .. } => path,
            AssemblyError::DanglingLocalSymbolId { path, .. } => path,
        }
    }

    /// What the error tells a reader.
    pub open spec fn message_text(self) -> Seq<char> {
        match self {
            AssemblyError::DuplicateFile { path } => "parsed file appears more than once: "@
                + path@,
            AssemblyError::DuplicateLocalSymbolId { path, local_id } => path@
                + " declares local symbol ID ParsedSymbolId("@ + text::decimal(local_id.0 as nat)
                + ") more than once"@,
            AssemblyError::DanglingLocalSymbolId { path, local_id, relation } => path@
                + " has dangling local symbol ID ParsedSymbolId("@ + text::decimal(
                local_id.0 as nat,
            ) + ") in "@ + relation@,
        }
    }

    /// The message of the error.
    pub fn to_string(&self) -> (message: String)
        ensures
            message@ == self.message_text(),
    {
        match self {
            AssemblyError::DuplicateFile { path } => {
                let mut message = "parsed file appears more than once: ".to_owned();
                message.push_str(path.as_str());
                message
            },
            AssemblyError::DuplicateLocalSymbolId { path, local_id } => {
                let mut message = path.to_string();
                message.push_str(" declares local symbol ID ParsedSymbolId(");
                text::push_decimal(&mut message, local_id.0 as u64);
                message.push_str(") more than once");
                message
            },
            AssemblyError::DanglingLocalSymbolId { path, local_id, relation } => {
                let mut message = path.to_string();
                message.push_str(" has dangling local symbol ID ParsedSymbolId(");
                text::push_decimal(&mut message, local_id.0 as u64);
                message.push_str(") in ");
                message.push_str(relation);
                message
            },
        }
    }
}

/// Why a call or an import is left unresolved.
pub open spec fn unresolved_reason() -> Seq<char> {
    "cross-file and external resolution is not performed"@
}

/// The text that a symbol shares with the symbols of its kind and name.
pub open spec fn canonical_key(symbol: ParsedSymbol) -> Seq<char> {
    symbol.kind.key() + seq!['\0'] + symbol.qualified_name@
}

fn symbol_canonical_key(symbol: &ParsedSymbol) -> (key: String)
    ensures
        key@ == canonical_key(*symbol),
{
    let mut key = symbol.kind.key_text();
    key.push('\0');
    key.push_str(symbol.qualified_name.as_str());
    assert(key@ =~= canonical_key(*symbol));
    key
}

/// The text of a source range.
pub open spec fn span_text(span: ((u32, u32), (u32, u32))) -> Seq<char> {
    text::decimal(span.0.0 as nat) + ":"@ + text::decimal(span.0.1 as nat) + "-"@ + text::decimal(
        span.1.0 as nat,
    ) + ":"@ + text::decimal(span.1.1 as nat)
}

fn span_key(span: SourceSpan) -> (key: String)
    ensures
        key@ == span_text(span@),
{
    let mut key = text::decimal_text(span.start().line() as u64);
    key.push_str(":");
    text::push_decimal(&mut key, span.start().column() as u64);
    key.push_str("-");
    text::push_decimal(&mut key, span.end().line() as u64);
    key.push_str(":");
    text::push_decimal(&mut key, span.end().column() as u64);
    key
}

/// A symbol in the order in which occurrences of its key are numbered: by key, by
/// the text of its range, by its local ID.
pub struct SymbolRank<'a> {
    pub symbol: &'a ParsedSymbol,
}

impl<'a> Ordered for SymbolRank<'a> {
    open spec fn precedes(self, other: SymbolRank<'a>) -> bool {
        let key = canonical_key(*self.symbol);
        let other_key = canonical_key(*other.symbol);
        let span = span_text(self.symbol.span@);
        let other_span = span_text(other.symbol.span@);
        if key != other_key {
            text::before(key, other_key)
        } else if span != other_span {
            text::before(span, other_span)
        } else {
            self.symbol.local_id.0 < other.symbol.local_id.0
        }
    }

    proof fn order_laws(a: SymbolRank<'a>, b: SymbolRank<'a>, c: SymbolRank<'a>) {
        let key_a = canonical_key(*a.symbol);
        let key_b = canonical_key(*b.symbol);
        let key_c = canonical_key(*c.symbol);
        text::law_text_order(key_a, key_b, key_c);
        text::law_text_order(key_b, key_a, key_c);
        text::law_text_order(key_b, key_c, key_a);
        let span_a = span_text(a.symbol.span@);
        let span_b = span_text(b.symbol.span@);
        let span_c = span_text(c.symbol.span@);
        text::law_text_order(span_a, span_b, span_c);
        text::law_text_order(span_b, span_a, span_c);
        text::law_text_order(span_b, span_c, span_a);
    }

    fn comes_before(&self, other: &SymbolRank<'a>) -> (before: bool) {
        let key = symbol_canonical_key(self.symbol);
        let other_key = symbol_canonical_key(other.symbol);
        if !text::same_text(key.as_str(), other_key.as_str()) {
            return text::text_before(key.as_str(), other_key.as_str());
        }
        let span = span_key(self.symbol.span);
        let other_span = span_key(other.symbol.span);
        if !text::same_text(span.as_str(), other_span.as_str()) {
            return text::text_before(span.as_str(), other_span.as_str());
        }
        self.symbol.local_id.0 < other.symbol.local_id.0
    }
}

pub open spec fn symbol_ranks<'a>(symbols: Seq<ParsedSymbol>) -> Seq<SymbolRank<'a>> {
    Seq::new(symbols.len(), |i: int| SymbolRank { symbol: &symbols[i] })
}

/// How many of the first `count` listed symbols share the key of the symbol `i`.
pub open spec fn sharing(
    symbols: Seq<ParsedSymbol>,
    order: Seq<usize>,
    i: int,
    count: nat,
) -> nat
    decreases count,
{
    if count == 0 {
        0
    } else {
        sharing(symbols, order, i, (count - 1) as nat) + if canonical_key(
            symbols[order[count - 1] as int],
        ) == canonical_key(symbols[i]) {
            1nat
        } else {
            0nat
        }
    }
}

/// The identity of a symbol: repository, file, kind and name, and the number of
/// the occurrence where several symbols of the file share kind and name.
pub open spec fn symbol_identity(
    repository: Seq<char>,
    path: Seq<char>,
    symbols: Seq<ParsedSymbol>,
    order: Seq<usize>,
    i: int,
) -> SymbolId {
    let base = seq![repository, path, symbols[i].kind.key(), symbols[i].qualified_name@];
    if sharing(symbols, order, i, order.len()) == 1 {
        SymbolId::of(base)
    } else {
        SymbolId::of(
            base.push(
                text::decimal(sharing(symbols, order, i, layout::rank_of(order, i))),
            ),
        )
    }
}

/// The index of the first symbol with a local ID.
pub open spec fn local_index(symbols: Seq<ParsedSymbol>, local_id: ParsedSymbolId) -> Option<int> {
    checks::least_index(symbols.len(), has_local_id(symbols, local_id))
}

pub open spec fn has_local_id(symbols: Seq<ParsedSymbol>, local_id: ParsedSymbolId) -> spec_fn(
    int,
) -> bool {
    |i: int| symbols[i].local_id == local_id
}

/// A relation to a local ID that no symbol of the file has.
pub struct Dangling {
    pub local_id: ParsedSymbolId,
    pub relation: Seq<char>,
}

/// A relation to a local ID.
pub open spec fn local_check(
    symbols: Seq<ParsedSymbol>,
    local_id: ParsedSymbolId,
    relation: Seq<char>,
) -> Result<(), Dangling> {
    if local_index(symbols, local_id) is Some {
        Ok(())
    } else {
        Err(Dangling { local_id, relation })
    }
}

pub open spec fn optional_check(
    symbols: Seq<ParsedSymbol>,
    local_id: Option<ParsedSymbolId>,
    relation: Seq<char>,
) -> Result<(), Dangling> {
    match local_id {
        Some(local_id) => local_check(symbols, local_id, relation),
        None => Ok(()),
    }
}

pub open spec fn target_check(
    symbols: Seq<ParsedSymbol>,
    target: ParsedTarget,
    relation: Seq<char>,
) -> Result<(), Dangling> {
    match target {
        ParsedTarget::Local(local_id) => local_check(symbols, local_id, relation),
        ParsedTarget::Unresolved(_) => Ok(()),
    }
}

pub open spec fn parent_checks(symbols: Seq<ParsedSymbol>) -> spec_fn(int) -> Result<
    (),
    Dangling,
> {
    |k: int| optional_check(symbols, symbols[k].parent_id, "symbol parent"@)
}

pub open spec fn reference_check(
    symbols: Seq<ParsedSymbol>,
    reference: ParsedReference,
) -> Result<(), Dangling> {
    let source = optional_check(symbols, reference.source_id, "reference source"@);
    if source is Err {
        source
    } else {
        target_check(symbols, reference.target, "reference target"@)
    }
}

pub open spec fn reference_checks(
    symbols: Seq<ParsedSymbol>,
    references: Seq<ParsedReference>,
) -> spec_fn(int) -> Result<(), Dangling> {
    |k: int| reference_check(symbols, references[k])
}

pub open spec fn call_check(symbols: Seq<ParsedSymbol>, call: ParsedCall) -> Result<(), Dangling> {
    let caller = optional_check(symbols, call.caller_id, "call caller"@);
    if caller is Err {
        caller
    } else {
        target_check(symbols, call.target, "call target"@)
    }
}

pub open spec fn call_checks(symbols: Seq<ParsedSymbol>, calls: Seq<ParsedCall>) -> spec_fn(
    int,
) -> Result<(), Dangling> {
    |k: int| call_check(symbols, calls[k])
}

pub open spec fn entry_checks(
    symbols: Seq<ParsedSymbol>,
    entries: Seq<ParsedEntryPoint>,
) -> spec_fn(int) -> Result<(), Dangling> {
    |k: int| optional_check(symbols, entries[k].symbol_id, "entry point symbol"@)
}

/// Whether all local relations of a file lead to symbols of the file; else the
/// first one that does not: parents, then references, calls and entry points.
pub open spec fn relations_outcome(parsed: ParsedFile) -> Result<(), Dangling> {
    let symbols = parsed.symbols@;
    let parents = checks::first_error(symbols.len(), parent_checks(symbols));
    let references = checks::first_error(
        parsed.references@.len(),
        reference_checks(symbols, parsed.references@),
    );
    let calls = checks::first_error(parsed.calls@.len(), call_checks(symbols, parsed.calls@));
    if parents is Err {
        parents
    } else if references is Err {
        references
    } else if calls is Err {
        calls
    } else {
        checks::first_error(
            parsed.entry_points@.len(),
            entry_checks(symbols, parsed.entry_points@),
        )
    }
}

/// Whether the listed symbol at `k` repeats the local ID of one listed before.
pub open spec fn repeats_local_id(
    symbols: Seq<ParsedSymbol>,
    order: Seq<usize>,
    k: int,
) -> bool {
    exists|j: int|
        0 <= j < k && symbols[(#[trigger] order[j]) as int].local_id
            == symbols[order[k] as int].local_id
}

/// Why a file cannot be assembled: the first listed symbol that repeats a local
/// ID, else the first dangling relation.
pub open spec fn file_refused(parsed: ParsedFile, error: AssemblyError) -> bool {
    exists|order: Seq<usize>|
        {
            &&& #[trigger] sort::lists_in_order(symbol_ranks(parsed.symbols@), order)
            &&& match error {
                AssemblyError::DuplicateFile { .. } => false,
                AssemblyError::DuplicateLocalSymbolId { path, local_id } => {
                    &&& path == parsed.path
                    &&& exists|k: int|
                        {
                            &&& 0 <= k < order.len()
                            &&& #[trigger] repeats_local_id(parsed.symbols@, order, k)
                            &&& local_id == parsed.symbols@[order[k] as int].local_id
                            &&& forall|m: int|
                                0 <= m < k ==> !#[trigger] repeats_local_id(
                                    parsed.symbols@,
                                    order,
                                    m,
                                )
                        }
                },
                AssemblyError::DanglingLocalSymbolId { path, local_id, relation } => {
                    &&& path == parsed.path
                    &&& forall|k: int|
                        0 <= k < order.len() ==> !#[trigger] repeats_local_id(
                            parsed.symbols@,
                            order,
                            k,
                        )
                    &&& relations_outcome(parsed) == Err::<(), Dangling>(
                        Dangling { local_id, relation: relation@ },
                    )
                },
            }
        }
}

/// Whether a file can be assembled.
pub open spec fn file_accepted(parsed: ParsedFile, order: Seq<usize>) -> bool {
    &&& sort::lists_in_order(symbol_ranks(parsed.symbols@), order)
    &&& forall|k: int|
        0 <= k < order.len() ==> !#[trigger] repeats_local_id(parsed.symbols@, order, k)
    &&& relations_outcome(parsed) is Ok
}

/// What the records of a file refer to.
pub struct FileContext {
    /// The text of the repository ID.
    pub repository: Seq<char>,
    pub parsed: ParsedFile,
    /// The symbols in the order in which they are numbered.
    pub order: Seq<usize>,
    /// The reason given for unresolved targets.
    pub reason: String,
}

impl FileContext {
    pub open spec fn path(self) -> Seq<char> {
        self.parsed.path@
    }

    pub open spec fn file_id(self) -> FileId {
        FileId::of(seq![self.repository, self.path()])
    }

    pub open spec fn module_id(self) -> Option<ModuleId> {
        match self.parsed.module {
            Some(module) => Some(
                ModuleId::of(seq![self.repository, self.path(), module.qualified_name@]),
            ),
            None => None,
        }
    }

    /// The identity of the symbol at an index.
    pub open spec fn symbol_id(self, i: int) -> SymbolId {
        symbol_identity(self.repository, self.path(), self.parsed.symbols@, self.order, i)
    }

    /// The identity behind a local ID.
    pub open spec fn local(self, local_id: ParsedSymbolId) -> SymbolId {
        self.symbol_id(local_index(self.parsed.symbols@, local_id)->0)
    }

    pub open spec fn optional(self, local_id: Option<ParsedSymbolId>) -> Option<SymbolId> {
        match local_id {
            Some(local_id) => Some(self.local(local_id)),
            None => None,
        }
    }

    pub open spec fn unresolved(self, name: String) -> UnresolvedTarget {
        UnresolvedTarget { name, reason: Some(self.reason) }
    }

    pub open spec fn target(self, target: ParsedTarget) -> TargetResolution<SymbolId> {
        match target {
            ParsedTarget::Local(local_id) => TargetResolution::Resolved(self.local(local_id)),
            ParsedTarget::Unresolved(name) => TargetResolution::Unresolved(self.unresolved(name)),
        }
    }

    pub open spec fn file(self) -> FileInfo {
        FileInfo {
            id: self.file_id(),
            path: self.parsed.path,
            language: self.parsed.language,
        }
    }

    pub open spec fn modules(self) -> Seq<Module> {
        match self.parsed.module {
            Some(module) => seq![
                Module {
                    id: self.module_id()->0,
                    name: module.name,
                    qualified_name: module.qualified_name,
                    file_id: self.file_id(),
                    span: module.span,
                    parent_id: None,
                },
            ],
            None => Seq::empty(),
        }
    }

    pub open spec fn symbol(self, i: int) -> Symbol {
        let symbol = self.parsed.symbols@[i];
        Symbol {
            id: self.symbol_id(i),
            name: symbol.name,
            qualified_name: symbol.qualified_name,
            kind: symbol.kind,
            file_id: self.file_id(),
            module_id: self.module_id(),
            span: symbol.span,
            parent_id: self.optional(symbol.parent_id),
        }
    }

    pub open spec fn symbols(self) -> Seq<Symbol> {
        Seq::new(self.parsed.symbols@.len(), |i: int| self.symbol(i))
    }

    pub open spec fn import(self, i: int) -> ImportEdge {
        let import = self.parsed.imports@[i];
        let alias = match import.alias {
            Some(alias) => alias@,
            None => Seq::empty(),
        };
        ImportEdge {
            id: ImportEdgeId::of(
                seq![self.repository, self.path(), import.target@, alias, span_text(import.span@)],
            ),
            source_file_id: self.file_id(),
            source_module_id: self.module_id(),
            target: TargetResolution::Unresolved(self.unresolved(import.target)),
            span: import.span,
            alias: import.alias,
        }
    }

    pub open spec fn imports(self) -> Seq<ImportEdge> {
        Seq::new(self.parsed.imports@.len(), |i: int| self.import(i))
    }

    pub open spec fn reference(self, i: int) -> ReferenceEdge {
        let reference = self.parsed.references@[i];
        let source = self.optional(reference.source_id);
        let target = self.target(reference.target);
        ReferenceEdge {
            id: ReferenceEdgeId::of(
                seq![
                    self.repository,
                    self.path(),
                    optional_key(source),
                    target_text(target),
                    reference.kind.key(),
                    span_text(reference.span@),
                ],
            ),
            source_file_id: self.file_id(),
            source_symbol_id: source,
            target,
            kind: reference.kind,
            span: reference.span,
        }
    }

    pub open spec fn references(self) -> Seq<ReferenceEdge> {
        Seq::new(self.parsed.references@.len(), |i: int| self.reference(i))
    }

    pub open spec fn call(self, i: int) -> CallEdge {
        let call = self.parsed.calls@[i];
        let caller = self.optional(call.caller_id);
        let target = self.target(call.target);
        CallEdge {
            id: CallEdgeId::of(
                seq![
                    self.repository,
                    self.path(),
                    optional_key(caller),
                    target_text(target),
                    span_text(call.span@),
                ],
            ),
            source_file_id: self.file_id(),
            caller_id: caller,
            target,
            span: call.span,
            confidence: call.confidence,
        }
    }

    pub open spec fn calls(self) -> Seq<CallEdge> {
        Seq::new(self.parsed.calls@.len(), |i: int| self.call(i))
    }

    pub open spec fn entry_point(self, i: int) -> EntryPoint {
        let entry = self.parsed.entry_points@[i];
        let symbol = self.optional(entry.symbol_id);
        EntryPoint {
            id: EntryPointId::of(
                seq![
                    self.repository,
                    self.path(),
                    entry.kind.key(),
                    entry.label@,
                    optional_key(symbol),
                    span_text(entry.span@),
                ],
            ),
            kind: entry.kind,
            label: entry.label,
            file_id: self.file_id(),
            symbol_id: symbol,
            span: entry.span,
        }
    }

    pub open spec fn entry_points(self) -> Seq<EntryPoint> {
        Seq::new(self.parsed.entry_points@.len(), |i: int| self.entry_point(i))
    }
}

pub open spec fn optional_key(id: Option<SymbolId>) -> Seq<char> {
    match id {
        Some(id) => id::id_text(id.value),
        None => "none"@,
    }
}

pub open spec fn target_text(target: TargetResolution<SymbolId>) -> Seq<char> {
    match target {
        TargetResolution::Resolved(id) => "resolved:"@ + id::id_text(id.value),
        TargetResolution::Unresolved(target) => "unresolved:"@ + target.name@,
    }
}

fn optional_symbol_key(symbol_id: Option<SymbolId>) -> (key: String)
    ensures
        key@ == optional_key(symbol_id),
{
    match symbol_id {
        Some(id) => id.to_string(),
        None => "none".to_owned(),
    }
}

fn target_key(target: &TargetResolution<SymbolId>) -> (key: String)
    ensures
        key@ == target_text(*target),
{
    match target {
        TargetResolution::Resolved(id) => {
            let mut key = "resolved:".to_owned();
            let hex = id.to_string();
            key.push_str(hex.as_str());
            key
        },
        TargetResolution::Unresolved(target) => {
            let mut key = "unresolved:".to_owned();
            key.push_str(target.name.as_str());
            key
        },
    }
}

/// What the records of a file are built from.
struct FileScope<'a> {
    repository: &'a String,
    parsed: &'a ParsedFile,
    reason: &'a String,
    file_id: FileId,
    module_id: Option<ModuleId>,
    symbol_ids: Vec<SymbolId>,
}

impl<'a> FileScope<'a> {
    spec fn follows(self, context: FileContext) -> bool {
        &&& self.repository@ == context.repository
        &&& *self.parsed == context.parsed
        &&& *self.reason == context.reason
        &&& self.file_id == context.file_id()
        &&& self.module_id == context.module_id()
        &&& self.symbol_ids@.len() == self.parsed.symbols@.len()
        &&& forall|i: int|
            0 <= i < self.symbol_ids@.len() ==> #[trigger] self.symbol_ids@[i]
                == context.symbol_id(i)
    }
}

/// The index of the first symbol with a local ID.
fn find_local(symbols: &Vec<ParsedSymbol>, local_id: ParsedSymbolId) -> (found: Option<usize>)
    ensures
        match found {
            Some(index) => index < symbols@.len() && local_index(symbols@, local_id) == Some(
                index as int,
            ),
            None => local_index(symbols@, local_id) is None,
        },
{
    let ghost wanted = has_local_id(symbols@, local_id);
    let mut index: usize = 0;
    while index < symbols.len()
        invariant
            index <= symbols@.len(),
            wanted == has_local_id(symbols@, local_id),
            checks::least_index(index as nat, wanted) is None,
        decreases symbols@.len() - index,
    {
        proof {
            checks::lemma_least_index(index as nat, wanted);
        }
        if symbols[index].local_id == local_id {
            proof {
                checks::lemma_least_index_is(symbols@.len(), wanted, index as int);
            }
            return Some(index);
        }
        assert(!wanted(index as int));
        index = index + 1;
    }
    None
}

impl<'a> FileScope<'a> {
    fn resolve_local(
        &self,
        local_id: ParsedSymbolId,
        relation: &'static str,
        Ghost(context): Ghost<FileContext>,
    ) -> (resolved: Result<SymbolId, AssemblyError>)
        requires
            self.follows(context),
        ensures
            match resolved {
                Ok(id) => local_check(context.parsed.symbols@, local_id, relation@) is Ok && id
                    == context.local(local_id),
                Err(error) => dangles(
                    context.parsed,
                    local_check(context.parsed.symbols@, local_id, relation@),
                    error,
                ),
            },
    {
        match find_local(&self.parsed.symbols, local_id) {
            Some(index) => {
                assert(self.symbol_ids@[index as int] == context.symbol_id(index as int));
                Ok(self.symbol_ids[index])
            },
            None => Err(
                AssemblyError::DanglingLocalSymbolId {
                    path: self.parsed.path.clone(),
                    local_id,
                    relation,
                },
            ),
        }
    }

    fn resolve_optional_local(
        &self,
        local_id: Option<ParsedSymbolId>,
        relation: &'static str,
        Ghost(context): Ghost<FileContext>,
    ) -> (resolved: Result<Option<SymbolId>, AssemblyError>)
        requires
            self.follows(context),
        ensures
            match resolved {
                Ok(id) => optional_check(context.parsed.symbols@, local_id, relation@) is Ok && id
                    == context.optional(local_id),
                Err(error) => dangles(
                    context.parsed,
                    optional_check(context.parsed.symbols@, local_id, relation@),
                    error,
                ),
            },
    {
        match local_id {
            None => Ok(None),
            Some(local_id) => match self.resolve_local(local_id, relation, Ghost(context)) {
                Ok(id) => Ok(Some(id)),
                Err(error) => Err(error),
            },
        }
    }

    fn unresolved(&self, name: &String, Ghost(context): Ghost<FileContext>) -> (target:
        UnresolvedTarget)
        requires
            self.follows(context),
        ensures
            target == context.unresolved(*name),
    {
        UnresolvedTarget { name: name.clone(), reason: Some(self.reason.clone()) }
    }

    fn resolve_target(
        &self,
        target: &ParsedTarget,
        relation: &'static str,
        Ghost(context): Ghost<FileContext>,
    ) -> (resolved: Result<TargetResolution<SymbolId>, AssemblyError>)
        requires
            self.follows(context),
        ensures
            match resolved {
                Ok(found) => target_check(context.parsed.symbols@, *target, relation@) is Ok
                    && found == context.target(*target),
                Err(error) => dangles(
                    context.parsed,
                    target_check(context.parsed.symbols@, *target, relation@),
                    error,
                ),
            },
    {
        match target {
            ParsedTarget::Local(local_id) => match self.resolve_local(
                *local_id,
                relation,
                Ghost(context),
            ) {
                Ok(id) => Ok(TargetResolution::Resolved(id)),
                Err(error) => Err(error),
            },
            ParsedTarget::Unresolved(name) => Ok(
                TargetResolution::Unresolved(self.unresolved(name, Ghost(context))),
            ),
        }
    }

    fn symbols(&self, Ghost(context): Ghost<FileContext>) -> (built: Result<
        Vec<Symbol>,
        AssemblyError,
    >)
        requires
            self.follows(context),
        ensures
            match built {
                Ok(symbols) => symbols@ == context.symbols() && checks::first_error(
                    context.parsed.symbols@.len(),
                    parent_checks(context.parsed.symbols@),
                ) is Ok,
                Err(error) => dangles(
                    context.parsed,
                    checks::first_error(
                        context.parsed.symbols@.len(),
                        parent_checks(context.parsed.symbols@),
                    ),
                    error,
                ),
            },
    {
        let parsed = &self.parsed.symbols;
        let ghost each = parent_checks(parsed@);
        let mut symbols: Vec<Symbol> = Vec::new();
        let mut index: usize = 0;
        while index < parsed.len()
            invariant
                self.follows(context),
                index <= parsed@.len(),
                parsed@ == context.parsed.symbols@,
                each == parent_checks(parsed@),
                checks::first_error(index as nat, each) is Ok,
                symbols@.len() == index,
                forall|i: int| 0 <= i < index ==> #[trigger] symbols@[i] == context.symbol(i),
            decreases parsed@.len() - index,
        {
            let symbol = &parsed[index];
            let resolved = self.resolve_optional_local(
                symbol.parent_id,
                "symbol parent",
                Ghost(context),
            );
            let parent_id = match resolved {
                Ok(parent_id) => parent_id,
                Err(error) => {
                    assert(dangles(context.parsed, each(index as int), error));
                    proof {
                        checks::lemma_first_error_stays((index + 1) as nat, parsed@.len(), each);
                    }
                    return Err(error);
                },
            };
            assert(each(index as int) is Ok);
            assert(self.symbol_ids@[index as int] == context.symbol_id(index as int));
            symbols.push(
                Symbol {
                    id: self.symbol_ids[index],
                    name: symbol.name.clone(),
                    qualified_name: symbol.qualified_name.clone(),
                    kind: symbol.kind.clone(),
                    file_id: self.file_id,
                    module_id: self.module_id,
                    span: symbol.span,
                    parent_id,
                },
            );
            index = index + 1;
        }
        assert(symbols@ =~= context.symbols());
        Ok(symbols)
    }

    fn imports(&self, Ghost(context): Ghost<FileContext>) -> (imports: Vec<ImportEdge>)
        requires
            self.follows(context),
        ensures
            imports@ == context.imports(),
    {
        let parsed = &self.parsed.imports;
        let mut imports: Vec<ImportEdge> = Vec::new();
        let mut index: usize = 0;
        while index < parsed.len()
            invariant
                self.follows(context),
                index <= parsed@.len(),
                parsed@ == context.parsed.imports@,
                imports@.len() == index,
                forall|i: int| 0 <= i < index ==> #[trigger] imports@[i] == context.import(i),
            decreases parsed@.len() - index,
        {
            let import = &parsed[index];
            let span = span_key(import.span);
            let alias = match &import.alias {
                Some(alias) => alias.clone(),
                None => String::new(),
            };
            let mut parts: Vec<&str> = Vec::new();
            parts.push(self.repository.as_str());
            parts.push(self.parsed.path.as_str());
            parts.push(import.target.as_str());
            parts.push(alias.as_str());
            parts.push(span.as_str());
            assert(text::views(parts@) =~= seq![
                context.repository,
                context.path(),
                import.target@,
                alias@,
                span_text(import.span@),
            ]);
            let id = ImportEdgeId::from_stable_parts(parts.as_slice());
            imports.push(
                ImportEdge {
                    id,
                    source_file_id: self.file_id,
                    source_module_id: self.module_id,
                    target: TargetResolution::Unresolved(
                        self.unresolved(&import.target, Ghost(context)),
                    ),
                    span: import.span,
                    alias: text::copy_option(&import.alias),
                },
            );
            index = index + 1;
        }
        assert(imports@ =~= context.imports());
        imports
    }

    fn references(&self, Ghost(context): Ghost<FileContext>) -> (built: Result<
        Vec<ReferenceEdge>,
        AssemblyError,
    >)
        requires
            self.follows(context),
        ensures
            match built {
                Ok(references) => references@ == context.references() && checks::first_error(
                    context.parsed.references@.len(),
                    reference_checks(context.parsed.symbols@, context.parsed.references@),
                ) is Ok,
                Err(error) => dangles(
                    context.parsed,
                    checks::first_error(
                        context.parsed.references@.len(),
                        reference_checks(context.parsed.symbols@, context.parsed.references@),
                    ),
                    error,
                ),
            },
    {
        let parsed = &self.parsed.references;
        let ghost each = reference_checks(context.parsed.symbols@, parsed@);
        let mut references: Vec<ReferenceEdge> = Vec::new();
        let mut index: usize = 0;
        while index < parsed.len()
            invariant
                self.follows(context),
                index <= parsed@.len(),
                parsed@ == context.parsed.references@,
                each == reference_checks(context.parsed.symbols@, parsed@),
                checks::first_error(index as nat, each) is Ok,
                references@.len() == index,
                forall|i: int|
                    0 <= i < index ==> #[trigger] references@[i] == context.reference(i),
            decreases parsed@.len() - index,
        {
            let reference = &parsed[index];
            let source_symbol_id = match self.resolve_optional_local(
                reference.source_id,
                "reference source",
                Ghost(context),
            ) {
                Ok(id) => id,
                Err(error) => {
                    assert(dangles(context.parsed, each(index as int), error));
                    proof {
                        checks::lemma_first_error_stays((index + 1) as nat, parsed@.len(), each);
                    }
                    return Err(error);
                },
            };
            let target = match self.resolve_target(
                &reference.target,
                "reference target",
                Ghost(context),
            ) {
                Ok(target) => target,
                Err(error) => {
                    assert(dangles(context.parsed, each(index as int), error));
                    proof {
                        checks::lemma_first_error_stays((index + 1) as nat, parsed@.len(), each);
                    }
                    return Err(error);
                },
            };
            assert(each(index as int) is Ok);
            let source_key = optional_symbol_key(source_symbol_id);
            let target_key = target_key(&target);
            let kind_key = reference.kind.key_text();
            let span = span_key(reference.span);
            let mut parts: Vec<&str> = Vec::new();
            parts.push(self.repository.as_str());
            parts.push(self.parsed.path.as_str());
            parts.push(source_key.as_str());
            parts.push(target_key.as_str());
            parts.push(kind_key.as_str());
            parts.push(span.as_str());
            assert(text::views(parts@) =~= seq![
                context.repository,
                context.path(),
                source_key@,
                target_key@,
                kind_key@,
                span@,
            ]);
            let id = ReferenceEdgeId::from_stable_parts(parts.as_slice());
            references.push(
                ReferenceEdge {
                    id,
                    source_file_id: self.file_id,
                    source_symbol_id,
                    target,
                    kind: reference.kind.clone(),
                    span: reference.span,
                },
            );
            index = index + 1;
        }
        assert(references@ =~= context.references());
        Ok(references)
    }

    fn calls(&self, Ghost(context): Ghost<FileContext>) -> (built: Result<
        Vec<CallEdge>,
        AssemblyError,
    >)
        requires
            self.follows(context),
        ensures
            match built {
                Ok(calls) => calls@ == context.calls() && checks::first_error(
                    context.parsed.calls@.len(),
                    call_checks(context.parsed.symbols@, context.parsed.calls@),
                ) is Ok,
                Err(error) => dangles(
                    context.parsed,
                    checks::first_error(
                        context.parsed.calls@.len(),
                        call_checks(context.parsed.symbols@, context.parsed.calls@),
                    ),
                    error,
                ),
            },
    {
        let parsed = &self.parsed.calls;
        let ghost each = call_checks(context.parsed.symbols@, parsed@);
        let mut calls: Vec<CallEdge> = Vec::new();
        let mut index: usize = 0;
        while index < parsed.len()
            invariant
                self.follows(context),
                index <= parsed@.len(),
                parsed@ == context.parsed.calls@,
                each == call_checks(context.parsed.symbols@, parsed@),
                checks::first_error(index as nat, each) is Ok,
                calls@.len() == index,
                forall|i: int| 0 <= i < index ==> #[trigger] calls@[i] == context.call(i),
            decreases parsed@.len() - index,
        {
            let call = &parsed[index];
            let caller_id = match self.resolve_optional_local(
                call.caller_id,
                "call caller",
                Ghost(context),
            ) {
                Ok(id) => id,
                Err(error) => {
                    assert(dangles(context.parsed, each(index as int), error));
                    proof {
                        checks::lemma_first_error_stays((index + 1) as nat, parsed@.len(), each);
                    }
                    return Err(error);
                },
            };
            let target = match self.resolve_target(&call.target, "call target", Ghost(context)) {
                Ok(target) => target,
                Err(error) => {
                    assert(dangles(context.parsed, each(index as int), error));
                    proof {
                        checks::lemma_first_error_stays((index + 1) as nat, parsed@.len(), each);
                    }
                    return Err(error);
                },
            };
            assert(each(index as int) is Ok);
            let caller_key = optional_symbol_key(caller_id);
            let target_key = target_key(&target);
            let span = span_key(call.span);
            let mut parts: Vec<&str> = Vec::new();
            parts.push(self.repository.as_str());
            parts.push(self.parsed.path.as_str());
            parts.push(caller_key.as_str());
            parts.push(target_key.as_str());
            parts.push(span.as_str());
            assert(text::views(parts@) =~= seq![
                context.repository,
                context.path(),
                caller_key@,
                target_key@,
                span@,
            ]);
            let id = CallEdgeId::from_stable_parts(parts.as_slice());
            calls.push(
                CallEdge {
                    id,
                    source_file_id: self.file_id,
                    caller_id,
                    target,
                    span: call.span,
                    confidence: call.confidence,
                },
            );
            index = index + 1;
        }
        assert(calls@ =~= context.calls());
        Ok(calls)
    }

    fn entry_points(&self, Ghost(context): Ghost<FileContext>) -> (built: Result<
        Vec<EntryPoint>,
        AssemblyError,
    >)
        requires
            self.follows(context),
        ensures
            match built {
                Ok(entries) => entries@ == context.entry_points() && checks::first_error(
                    context.parsed.entry_points@.len(),
                    entry_checks(context.parsed.symbols@, context.parsed.entry_points@),
                ) is Ok,
                Err(error) => dangles(
                    context.parsed,
                    checks::first_error(
                        context.parsed.entry_points@.len(),
                        entry_checks(context.parsed.symbols@, context.parsed.entry_points@),
                    ),
                    error,
                ),
            },
    {
        let parsed = &self.parsed.entry_points;
        let ghost each = entry_checks(context.parsed.symbols@, parsed@);
        let mut entries: Vec<EntryPoint> = Vec::new();
        let mut index: usize = 0;
        while index < parsed.len()
            invariant
                self.follows(context),
                index <= parsed@.len(),
                parsed@ == context.parsed.entry_points@,
                each == entry_checks(context.parsed.symbols@, parsed@),
                checks::first_error(index as nat, each) is Ok,
                entries@.len() == index,
                forall|i: int| 0 <= i < index ==> #[trigger] entries@[i] == context.entry_point(i),
            decreases parsed@.len() - index,
        {
            let entry = &parsed[index];
            let symbol_id = match self.resolve_optional_local(
                entry.symbol_id,
                "entry point symbol",
                Ghost(context),
            ) {
                Ok(id) => id,
                Err(error) => {
                    assert(dangles(context.parsed, each(index as int), error));
                    proof {
                        checks::lemma_first_error_stays((index + 1) as nat, parsed@.len(), each);
                    }
                    return Err(error);
                },
            };
            assert(each(index as int) is Ok);
            let kind_key = entry.kind.key_text();
            let symbol_key = optional_symbol_key(symbol_id);
            let span = span_key(entry.span);
            let mut parts: Vec<&str> = Vec::new();
            parts.push(self.repository.as_str());
            parts.push(self.parsed.path.as_str());
            parts.push(kind_key.as_str());
            parts.push(entry.label.as_str());
            parts.push(symbol_key.as_str());
            parts.push(span.as_str());
            assert(text::views(parts@) =~= seq![
                context.repository,
                context.path(),
                kind_key@,
                entry.label@,
                symbol_key@,
                span@,
            ]);
            let id = EntryPointId::from_stable_parts(parts.as_slice());
            entries.push(
                EntryPoint {
                    id,
                    kind: entry.kind.clone(),
                    label: entry.label.clone(),
                    file_id: self.file_id,
                    symbol_id,
                    span: entry.span,
                },
            );
            index = index + 1;
        }
        assert(entries@ =~= context.entry_points());
        Ok(entries)
    }
}

/// An error that reports a dangling relation of a file.
pub open spec fn dangles(
    parsed: ParsedFile,
    outcome: Result<(), Dangling>,
    error: AssemblyError,
) -> bool {
    outcome matches Err(fault) && error matches AssemblyError::DanglingLocalSymbolId {
        path,
        local_id,
        relation,
    } && path == parsed.path && local_id == fault.local_id && relation@ == fault.relation
}

/// The symbols of a file in the order in which they are numbered.
fn symbol_order(symbols: &Vec<ParsedSymbol>) -> (order: Vec<usize>)
    ensures
        sort::lists_in_order(symbol_ranks(symbols@), order@),
{
    let mut ranks: Vec<SymbolRank> = Vec::new();
    let mut index: usize = 0;
    while index < symbols.len()
        invariant
            index <= symbols@.len(),
            ranks@.len() == index,
            forall|i: int| 0 <= i < index ==> (#[trigger] ranks@[i]).symbol == symbols@[i],
        decreases symbols@.len() - index,
    {
        ranks.push(SymbolRank { symbol: &symbols[index] });
        index = index + 1;
    }
    assert(ranks@ =~= symbol_ranks(symbols@));
    sort::sorted_indices(ranks)
}

/// How many of the first listed symbols share the key of a symbol.
fn count_sharing(
    symbols: &Vec<ParsedSymbol>,
    order: &Vec<usize>,
    index: usize,
    count: usize,
) -> (found: usize)
    requires
        index < symbols@.len(),
        count <= order@.len(),
        forall|k: int| 0 <= k < order@.len() ==> #[trigger] order@[k] < symbols@.len(),
    ensures
        found == sharing(symbols@, order@, index as int, count as nat),
{
    let key = symbol_canonical_key(&symbols[index]);
    let mut found: usize = 0;
    let mut position: usize = 0;
    while position < count
        invariant
            position <= count <= order@.len(),
            index < symbols@.len(),
            key@ == canonical_key(symbols@[index as int]),
            forall|k: int| 0 <= k < order@.len() ==> #[trigger] order@[k] < symbols@.len(),
            found == sharing(symbols@, order@, index as int, position as nat),
            found <= position,
        decreases count - position,
    {
        assert(order@[position as int] < symbols@.len());
        let other = symbol_canonical_key(&symbols[order[position]]);
        if text::same_text(other.as_str(), key.as_str()) {
            found = found + 1;
        }
        position = position + 1;
    }
    found
}

/// The identities of the symbols of a file.
fn symbol_identities(
    repository: &str,
    path: &str,
    symbols: &Vec<ParsedSymbol>,
    order: &Vec<usize>,
) -> (ids: Vec<SymbolId>)
    requires
        forall|k: int| 0 <= k < order@.len() ==> #[trigger] order@[k] < symbols@.len(),
    ensures
        ids@.len() == symbols@.len(),
        forall|i: int|
            0 <= i < ids@.len() ==> #[trigger] ids@[i] == symbol_identity(
                repository@,
                path@,
                symbols@,
                order@,
                i,
            ),
{
    let mut ids: Vec<SymbolId> = Vec::new();
    let mut index: usize = 0;
    while index < symbols.len()
        invariant
            index <= symbols@.len(),
            forall|k: int| 0 <= k < order@.len() ==> #[trigger] order@[k] < symbols@.len(),
            ids@.len() == index,
            forall|i: int|
                0 <= i < index ==> #[trigger] ids@[i] == symbol_identity(
                    repository@,
                    path@,
                    symbols@,
                    order@,
                    i,
                ),
        decreases symbols@.len() - index,
    {
        let symbol = &symbols[index];
        let kind_key = symbol.kind.key_text();
        let mut parts: Vec<&str> = Vec::new();
        parts.push(repository);
        parts.push(path);
        parts.push(kind_key.as_str());
        parts.push(symbol.qualified_name.as_str());
        let total = count_sharing(symbols, order, index, order.len());
        let ghost base = seq![repository@, path@, symbol.kind.key(), symbol.qualified_name@];
        if total == 1 {
            assert(text::views(parts@) =~= base);
            ids.push(SymbolId::from_stable_parts(parts.as_slice()));
        } else {
            let rank = layout::find_rank(order, index);
            let occurrence = count_sharing(symbols, order, index, rank);
            let occurrence_key = text::decimal_text(occurrence as u64);
            parts.push(occurrence_key.as_str());
            assert(text::views(parts@) =~= base.push(occurrence_key@));
            ids.push(SymbolId::from_stable_parts(parts.as_slice()));
        }
        index = index + 1;
    }
    ids
}

/// Looks for a listed symbol that repeats a local ID.
fn find_repeated_local(symbols: &Vec<ParsedSymbol>, order: &Vec<usize>) -> (found: Option<usize>)
    requires
        forall|k: int| 0 <= k < order@.len() ==> #[trigger] order@[k] < symbols@.len(),
    ensures
        match found {
            Some(k) => {
                &&& k < order@.len()
                &&& repeats_local_id(symbols@, order@, k as int)
                &&& forall|m: int|
                    0 <= m < k ==> !#[trigger] repeats_local_id(symbols@, order@, m)
            },
            None => forall|m: int|
                0 <= m < order@.len() ==> !#[trigger] repeats_local_id(symbols@, order@, m),
        },
{
    let mut position: usize = 0;
    while position < order.len()
        invariant
            position <= order@.len(),
            forall|k: int| 0 <= k < order@.len() ==> #[trigger] order@[k] < symbols@.len(),
            forall|m: int|
                0 <= m < position ==> !#[trigger] repeats_local_id(symbols@, order@, m),
        decreases order@.len() - position,
    {
        assert(order@[position as int] < symbols@.len());
        let local_id = symbols[order[position]].local_id;
        let mut earlier: usize = 0;
        while earlier < position
            invariant
                earlier <= position < order@.len(),
                forall|k: int| 0 <= k < order@.len() ==> #[trigger] order@[k] < symbols@.len(),
                local_id == symbols@[order@[position as int] as int].local_id,
                forall|m: int|
                    0 <= m < position ==> !#[trigger] repeats_local_id(symbols@, order@, m),
                forall|j: int|
                    0 <= j < earlier ==> symbols@[(#[trigger] order@[j]) as int].local_id
                        != local_id,
            decreases position - earlier,
        {
            assert(order@[earlier as int] < symbols@.len());
            if symbols[order[earlier]].local_id == local_id {
                assert(repeats_local_id(symbols@, order@, position as int));
                return Some(position);
            }
            earlier = earlier + 1;
        }
        assert(!repeats_local_id(symbols@, order@, position as int));
        position = position + 1;
    }
    None
}

impl Ordered for ParsedFile {
    open spec fn precedes(self, other: ParsedFile) -> bool {
        text::before(self.path@, other.path@)
    }

    proof fn order_laws(a: ParsedFile, b: ParsedFile, c: ParsedFile) {
        text::law_text_order(a.path@, b.path@, c.path@);
        text::law_text_order(b.path@, a.path@, c.path@);
    }

    fn comes_before(&self, other: &ParsedFile) -> (before: bool) {
        text::text_before(self.path.as_str(), other.path.as_str())
    }
}

impl Ordered for FileInfo {
    open spec fn precedes(self, other: FileInfo) -> bool {
        text::before(self.path@, other.path@)
    }

    proof fn order_laws(a: FileInfo, b: FileInfo, c: FileInfo) {
        text::law_text_order(a.path@, b.path@, c.path@);
        text::law_text_order(b.path@, a.path@, c.path@);
    }

    fn comes_before(&self, other: &FileInfo) -> (before: bool) {
        text::text_before(self.path.as_str(), other.path.as_str())
    }
}

impl Ordered for Module {
    open spec fn precedes(self, other: Module) -> bool {
        self.id.value < other.id.value
    }

    proof fn order_laws(a: Module, b: Module, c: Module) {
    }

    fn comes_before(&self, other: &Module) -> (before: bool) {
        self.id.value < other.id.value
    }
}

impl Ordered for Symbol {
    open spec fn precedes(self, other: Symbol) -> bool {
        self.id.value < other.id.value
    }

    proof fn order_laws(a: Symbol, b: Symbol, c: Symbol) {
    }

    fn comes_before(&self, other: &Symbol) -> (before: bool) {
        self.id.value < other.id.value
    }
}

impl Ordered for ImportEdge {
    open spec fn precedes(self, other: ImportEdge) -> bool {
        self.id.value < other.id.value
    }

    proof fn order_laws(a: ImportEdge, b: ImportEdge, c: ImportEdge) {
    }

    fn comes_before(&self, other: &ImportEdge) -> (before: bool) {
        self.id.value < other.id.value
    }
}

impl Ordered for ReferenceEdge {
    open spec fn precedes(self, other: ReferenceEdge) -> bool {
        self.id.value < other.id.value
    }

    proof fn order_laws(a: ReferenceEdge, b: ReferenceEdge, c: ReferenceEdge) {
    }

    fn comes_before(&self, other: &ReferenceEdge) -> (before: bool) {
        self.id.value < other.id.value
    }
}

impl Ordered for CallEdge {
    open spec fn precedes(self, other: CallEdge) -> bool {
        self.id.value < other.id.value
    }

    proof fn order_laws(a: CallEdge, b: CallEdge, c: CallEdge) {
    }

    fn comes_before(&self, other: &CallEdge) -> (before: bool) {
        self.id.value < other.id.value
    }
}

impl Ordered for EntryPoint {
    open spec fn precedes(self, other: EntryPoint) -> bool {
        self.id.value < other.id.value
    }

    proof fn order_laws(a: EntryPoint, b: EntryPoint, c: EntryPoint) {
    }

    fn comes_before(&self, other: &EntryPoint) -> (before: bool) {
        self.id.value < other.id.value
    }
}

/// Puts every list of a model in order: the files by path, the rest by ID.
pub fn sort_model(model: &mut RepositoryModel)
    ensures
        final(model).schema_version == old(model).schema_version,
        final(model).repository_id == old(model).repository_id,
        final(model).name == old(model).name,
        final(model).files@ == sort::stable_sorted(old(model).files@),
        final(model).modules@ == sort::stable_sorted(old(model).modules@),
        final(model).symbols@ == sort::stable_sorted(old(model).symbols@),
        final(model).imports@ == sort::stable_sorted(old(model).imports@),
        final(model).references@ == sort::stable_sorted(old(model).references@),
        final(model).calls@ == sort::stable_sorted(old(model).calls@),
        final(model).entry_points@ == sort::stable_sorted(old(model).entry_points@),
{
    sort::stable_sort(&mut model.files);
    sort::stable_sort(&mut model.modules);
    sort::stable_sort(&mut model.symbols);
    sort::stable_sort(&mut model.imports);
    sort::stable_sort(&mut model.references);
    sort::stable_sort(&mut model.calls);
    sort::stable_sort(&mut model.entry_points);
}

/// The order in which the symbols of a file are numbered.
pub open spec fn numbering(symbols: Seq<ParsedSymbol>) -> Seq<usize> {
    choose|order: Seq<usize>| sort::lists_in_order(symbol_ranks(symbols), order)
}

/// An order in which symbols can be numbered is the one in which they are.
pub proof fn lemma_numbering(symbols: Seq<ParsedSymbol>, order: Seq<usize>)
    requires
        sort::lists_in_order(symbol_ranks(symbols), order),
    ensures
        numbering(symbols) == order,
{
    sort::law_listing_is_unique(symbol_ranks(symbols), numbering(symbols), order);
}

/// The context of the records of a file.
pub open spec fn context_of(spec: RepositorySpec, parsed: ParsedFile, reason: String) -> FileContext {
    FileContext {
        repository: id::id_text(spec.identity().value),
        parsed,
        order: numbering(parsed.symbols@),
        reason,
    }
}

/// Whether a file can be assembled: no local ID occurs twice, and every local
/// relation leads to a symbol of the file.
pub open spec fn assemblable(parsed: ParsedFile) -> bool {
    file_accepted(parsed, numbering(parsed.symbols@))
}

pub open spec fn all_files(spec: RepositorySpec, files: Seq<ParsedFile>, reason: String) -> Seq<
    FileInfo,
>
    decreases files.len(),
{
    if files.len() == 0 {
        Seq::empty()
    } else {
        all_files(spec, files.drop_last(), reason).push(
            context_of(spec, files.last(), reason).file(),
        )
    }
}

pub open spec fn all_modules(spec: RepositorySpec, files: Seq<ParsedFile>, reason: String) -> Seq<
    Module,
>
    decreases files.len(),
{
    if files.len() == 0 {
        Seq::empty()
    } else {
        all_modules(spec, files.drop_last(), reason) + context_of(
            spec,
            files.last(),
            reason,
        ).modules()
    }
}

pub open spec fn all_symbols(spec: RepositorySpec, files: Seq<ParsedFile>, reason: String) -> Seq<
    Symbol,
>
    decreases files.len(),
{
    if files.len() == 0 {
        Seq::empty()
    } else {
        all_symbols(spec, files.drop_last(), reason) + context_of(
            spec,
            files.last(),
            reason,
        ).symbols()
    }
}

pub open spec fn all_imports(spec: RepositorySpec, files: Seq<ParsedFile>, reason: String) -> Seq<
    ImportEdge,
>
    decreases files.len(),
{
    if files.len() == 0 {
        Seq::empty()
    } else {
        all_imports(spec, files.drop_last(), reason) + context_of(
            spec,
            files.last(),
            reason,
        ).imports()
    }
}

pub open spec fn all_references(spec: RepositorySpec, files: Seq<ParsedFile>, reason: String) -> Seq<
    ReferenceEdge,
>
    decreases files.len(),
{
    if files.len() == 0 {
        Seq::empty()
    } else {
        all_references(spec, files.drop_last(), reason) + context_of(
            spec,
            files.last(),
            reason,
        ).references()
    }
}

pub open spec fn all_calls(spec: RepositorySpec, files: Seq<ParsedFile>, reason: String) -> Seq<
    CallEdge,
>
    decreases files.len(),
{
    if files.len() == 0 {
        Seq::empty()
    } else {
        all_calls(spec, files.drop_last(), reason) + context_of(
            spec,
            files.last(),
            reason,
        ).calls()
    }
}

pub open spec fn all_entry_points(spec: RepositorySpec, files: Seq<ParsedFile>, reason: String) -> Seq<
    EntryPoint,
>
    decreases files.len(),
{
    if files.len() == 0 {
        Seq::empty()
    } else {
        all_entry_points(spec, files.drop_last(), reason) + context_of(
            spec,
            files.last(),
            reason,
        ).entry_points()
    }
}

/// A model that holds the records of files, each list in order.
pub open spec fn assembles(
    spec: RepositorySpec,
    files: Seq<ParsedFile>,
    reason: String,
    model: RepositoryModel,
) -> bool {
    &&& model.schema_version.value == SCHEMA_VERSION
    &&& model.repository_id == spec.identity()
    &&& model.name == spec.name
    &&& model.files@ == sort::stable_sorted(all_files(spec, files, reason))
    &&& model.modules@ == sort::stable_sorted(all_modules(spec, files, reason))
    &&& model.symbols@ == sort::stable_sorted(all_symbols(spec, files, reason))
    &&& model.imports@ == sort::stable_sorted(all_imports(spec, files, reason))
    &&& model.references@ == sort::stable_sorted(all_references(spec, files, reason))
    &&& model.calls@ == sort::stable_sorted(all_calls(spec, files, reason))
    &&& model.entry_points@ == sort::stable_sorted(all_entry_points(spec, files, reason))
}

/// Whether the file at `k` has the path of an earlier file.
pub open spec fn repeats_path(files: Seq<ParsedFile>, k: int) -> bool {
    exists|j: int| 0 <= j < k && (#[trigger] files[j]).path@ == files[k].path@
}

/// Whether the file at `k` can be added to those before it.
pub open spec fn addable(files: Seq<ParsedFile>, k: int) -> bool {
    !repeats_path(files, k) && assemblable(files[k])
}

/// Why files, in the order of their paths, cannot be assembled: the first file
/// that repeats a path or is refused.
pub open spec fn assembly_refused(files: Seq<ParsedFile>, error: AssemblyError) -> bool {
    exists|k: int|
        {
            &&& 0 <= k < files.len()
            &&& !#[trigger] addable(files, k)
            &&& forall|m: int| 0 <= m < k ==> #[trigger] addable(files, m)
            &&& if repeats_path(files, k) {
                error matches AssemblyError::DuplicateFile { path } && path == files[k].path
            } else {
                file_refused(files[k], error)
            }
        }
}

/// A model that holds the records of files, in the order of their paths, all of
/// which can be added.
pub open spec fn assembled_from(
    spec: RepositorySpec,
    files: Seq<ParsedFile>,
    model: RepositoryModel,
) -> bool {
    &&& forall|k: int| 0 <= k < files.len() ==> #[trigger] addable(files, k)
    &&& exists|reason: String|
        reason@ == unresolved_reason() && #[trigger] assembles(spec, files, reason, model)
}

#[derive(Debug, Clone)]
pub struct IndexAssembler {
    repository: RepositorySpec,
}

impl IndexAssembler {
    pub closed spec fn spec_of(self) -> RepositorySpec {
        self.repository
    }

    pub fn new(repository: RepositorySpec) -> (assembler: IndexAssembler)
        ensures
            assembler.spec_of() == repository,
    {
        IndexAssembler { repository }
    }

    pub fn repository(&self) -> (repository: &RepositorySpec)
        ensures
            *repository == self.spec_of(),
    {
        &self.repository
    }

    /// Converts parser-local records into a deterministic repository model.
    pub fn assemble(&self, parsed_files: Vec<ParsedFile>) -> (assembled: Result<
        RepositoryModel,
        AssemblyError,
    >)
        ensures
            match assembled {
                Ok(model) => assembled_from(
                    self.spec_of(),
                    sort::stable_sorted(parsed_files@),
                    model,
                ),
                Err(error) => assembly_refused(sort::stable_sorted(parsed_files@), error),
            },
    {
        let mut files = parsed_files;
        sort::stable_sort(&mut files);
        proof {
            if files@.len() > 0 {
                sort::law_stable_sort(parsed_files@, files@[0]);
            } else {
                assert(sort::sorted(files@));
            }
        }
        let reason = "cross-file and external resolution is not performed".to_owned();
        let mut model = RepositoryModel::empty(
            self.repository.repository_id(),
            self.repository.name.clone(),
        );
        let ghost spec = self.repository;
        let mut index: usize = 0;
        while index < files.len()
            invariant
                index <= files@.len(),
                spec == self.repository,
                sort::sorted(files@),
                files@ == sort::stable_sorted(parsed_files@),
                reason@ == unresolved_reason(),
                forall|m: int| 0 <= m < index ==> #[trigger] addable(files@, m),
                model.schema_version.value == SCHEMA_VERSION,
                model.repository_id == spec.identity(),
                model.name == spec.name,
                model.files@ == all_files(spec, files@.take(index as int), reason),
                model.modules@ == all_modules(spec, files@.take(index as int), reason),
                model.symbols@ == all_symbols(spec, files@.take(index as int), reason),
                model.imports@ == all_imports(spec, files@.take(index as int), reason),
                model.references@ == all_references(spec, files@.take(index as int), reason),
                model.calls@ == all_calls(spec, files@.take(index as int), reason),
                model.entry_points@ == all_entry_points(spec, files@.take(index as int), reason),
            decreases files@.len() - index,
        {
            let file = &files[index];
            let repeated = index > 0 && files[index - 1].path.same(&file.path);
            proof {
                lemma_repeats_neighbour(files@, index as int);
            }
            if repeated {
                assert(!addable(files@, index as int));
                return Err(AssemblyError::DuplicateFile { path: file.path.clone() });
            }
            match self.assemble_file(file, &reason, &mut model) {
                Ok(()) => {},
                Err(error) => {
                    assert(!addable(files@, index as int));
                    return Err(error);
                },
            }
            assert(files@.take(index as int + 1).drop_last() =~= files@.take(index as int));
            assert(addable(files@, index as int));
            index = index + 1;
        }
        assert(files@.take(files@.len() as int) =~= files@);
        sort_model(&mut model);
        assert(assembles(spec, files@, reason, model));
        assert(assembled_from(spec, files@, model));
        Ok(model)
    }

    /// Appends the records of one file to a model.
    pub fn assemble_file(
        &self,
        parsed: &ParsedFile,
        reason: &String,
        model: &mut RepositoryModel,
    ) -> (outcome: Result<(), AssemblyError>)
        ensures
            match outcome {
                Ok(()) => {
                    let context = context_of(self.spec_of(), *parsed, *reason);
                    &&& assemblable(*parsed)
                    &&& final(model).schema_version == old(model).schema_version
                    &&& final(model).repository_id == old(model).repository_id
                    &&& final(model).name == old(model).name
                    &&& final(model).files@ == old(model).files@.push(context.file())
                    &&& final(model).modules@ == old(model).modules@ + context.modules()
                    &&& final(model).symbols@ == old(model).symbols@ + context.symbols()
                    &&& final(model).imports@ == old(model).imports@ + context.imports()
                    &&& final(model).references@ == old(model).references@ + context.references()
                    &&& final(model).calls@ == old(model).calls@ + context.calls()
                    &&& final(model).entry_points@ == old(model).entry_points@
                        + context.entry_points()
                },
                Err(error) => !assemblable(*parsed) && file_refused(*parsed, error)
                    && *final(model) == *old(model),
            },
    {
        let repository_id = self.repository.repository_id();
        let repository = repository_id.to_string();
        let path = parsed.path.as_str();
        let order = symbol_order(&parsed.symbols);
        let ghost context = context_of(self.repository, *parsed, *reason);
        proof {
            lemma_numbering(parsed.symbols@, order@);
        }
        if let Some(position) = find_repeated_local(&parsed.symbols, &order) {
            assert(repeats_local_id(parsed.symbols@, order@, position as int));
            assert(order@[position as int] < parsed.symbols@.len());
            let local_id = parsed.symbols[order[position]].local_id;
            return Err(
                AssemblyError::DuplicateLocalSymbolId { path: parsed.path.clone(), local_id },
            );
        }
        let mut file_parts: Vec<&str> = Vec::new();
        file_parts.push(repository.as_str());
        file_parts.push(path);
        assert(text::views(file_parts@) =~= seq![context.repository, context.path()]);
        let file_id = FileId::from_stable_parts(file_parts.as_slice());
        let module_id = match &parsed.module {
            Some(module) => {
                let mut parts: Vec<&str> = Vec::new();
                parts.push(repository.as_str());
                parts.push(path);
                parts.push(module.qualified_name.as_str());
                assert(text::views(parts@) =~= seq![
                    context.repository,
                    context.path(),
                    module.qualified_name@,
                ]);
                Some(ModuleId::from_stable_parts(parts.as_slice()))
            },
            None => None,
        };
        let symbol_ids = symbol_identities(repository.as_str(), path, &parsed.symbols, &order);
        let scope = FileScope {
            repository: &repository,
            parsed,
            reason,
            file_id,
            module_id,
            symbol_ids,
        };
        assert(scope.follows(context));
        let mut symbols = match scope.symbols(Ghost(context)) {
            Ok(symbols) => symbols,
            Err(error) => {
                assert(sort::lists_in_order(symbol_ranks(parsed.symbols@), order@));
                return Err(error);
            },
        };
        let mut imports = scope.imports(Ghost(context));
        let mut references = match scope.references(Ghost(context)) {
            Ok(references) => references,
            Err(error) => {
                assert(sort::lists_in_order(symbol_ranks(parsed.symbols@), order@));
                return Err(error);
            },
        };
        let mut calls = match scope.calls(Ghost(context)) {
            Ok(calls) => calls,
            Err(error) => {
                assert(sort::lists_in_order(symbol_ranks(parsed.symbols@), order@));
                return Err(error);
            },
        };
        let mut entry_points = match scope.entry_points(Ghost(context)) {
            Ok(entry_points) => entry_points,
            Err(error) => {
                assert(sort::lists_in_order(symbol_ranks(parsed.symbols@), order@));
                return Err(error);
            },
        };
        model.files.push(
            FileInfo {
                id: file_id,
                path: parsed.path.clone(),
                language: parsed.language.clone(),
            },
        );
        match (&parsed.module, module_id) {
            (Some(module), Some(module_id)) => {
                model.modules.push(
                    Module {
                        id: module_id,
                        name: module.name.clone(),
                        qualified_name: module.qualified_name.clone(),
                        file_id,
                        span: module.span,
                        parent_id: None,
                    },
                );
            },
            _ => {},
        }
        assert(model.modules@ =~= old(model).modules@ + context.modules());
        model.symbols.append(&mut symbols);
        model.imports.append(&mut imports);
        model.references.append(&mut references);
        model.calls.append(&mut calls);
        model.entry_points.append(&mut entry_points);
        Ok(())
    }
}

/// In files sorted by path, a file that repeats a path follows one with that path.
proof fn lemma_repeats_neighbour(files: Seq<ParsedFile>, k: int)
    requires
        sort::sorted(files),
        0 <= k < files.len(),
    ensures
        repeats_path(files, k) <==> k > 0 && files[k - 1].path@ == files[k].path@,
{
    if repeats_path(files, k) {
        let j = choose|j: int| 0 <= j < k && (#[trigger] files[j]).path@ == files[k].path@;
        if j < k - 1 {
            assert(!files[k - 1].precedes(files[j]));
            assert(!files[k].precedes(files[k - 1]));
            text::law_text_order(files[j].path@, files[k - 1].path@, files[k].path@);
            text::law_text_order(files[k].path@, files[k - 1].path@, files[k].path@);
        }
    }
    if k > 0 && files[k - 1].path@ == files[k].path@ {
        assert(files[k - 1].path@ == files[k].path@);
    }
}

/// A symbol that shares kind and name with no other symbol of its file has an
/// identity of repository, path, kind and name alone: neither its range, nor its
/// local ID, nor the order of the symbols has a part in it.
pub proof fn law_unshared_symbol_identity(
    repository: Seq<char>,
    path: Seq<char>,
    symbols: Seq<ParsedSymbol>,
    order: Seq<usize>,
    i: usize,
)
    requires
        sort::lists_in_order(symbol_ranks(symbols), order),
        i < symbols.len(),
        forall|j: int|
            0 <= j < symbols.len() && j != i ==> canonical_key(#[trigger] symbols[j])
                != canonical_key(symbols[i as int]),
    ensures
        symbol_identity(repository, path, symbols, order, i as int) == SymbolId::of(
            seq![repository, path, symbols[i as int].kind.key(), symbols[i as int].qualified_name@],
        ),
{
    assert(order.contains(i));
    let at = choose|at: int| 0 <= at < order.len() && order[at] == i;
    layout::lemma_listing_distinct(symbol_ranks(symbols), order);
    lemma_sharing_alone(symbols, order, i as int, at, order.len());
}

proof fn lemma_sharing_alone(
    symbols: Seq<ParsedSymbol>,
    order: Seq<usize>,
    i: int,
    at: int,
    count: nat,
)
    requires
        0 <= i < symbols.len(),
        order.no_duplicates(),
        0 <= at < order.len(),
        order[at] == i,
        count <= order.len(),
        forall|k: int| 0 <= k < order.len() ==> #[trigger] order[k] < symbols.len(),
        forall|j: int|
            0 <= j < symbols.len() && j != i ==> canonical_key(#[trigger] symbols[j])
                != canonical_key(symbols[i]),
    ensures
        sharing(symbols, order, i, count) == if at < count {
            1nat
        } else {
            0nat
        },
    decreases count,
{
    if count > 0 {
        lemma_sharing_alone(symbols, order, i, at, (count - 1) as nat);
        let v = order[count - 1] as int;
        assert(v < symbols.len());
        if count - 1 != at {
            assert(order[count - 1] != order[at]);
            assert(canonical_key(symbols[v]) != canonical_key(symbols[i]));
        }
    }
}

/// The order in which files are handed over has no part in the assembled model:
/// files with distinct paths are assembled in the same order, whatever order they
/// come in.
pub proof fn law_assembly_ignores_file_order(first: Seq<ParsedFile>, second: Seq<ParsedFile>)
    requires
        first.to_multiset() == second.to_multiset(),
        forall|i: int, j: int|
            0 <= i < first.len() && 0 <= j < first.len() && first[i] != first[j] ==> (
            #[trigger] first[i]).path@ != (#[trigger] first[j]).path@,
    ensures
        sort::stable_sorted(first) == sort::stable_sorted(second),
{
    assert(sort::told_apart(first)) by {
        assert forall|i: int, j: int|
            0 <= i < first.len() && 0 <= j < first.len() && first[i] != first[j] implies (
        #[trigger] first[i]).precedes(#[trigger] first[j]) || first[j].precedes(first[i]) by {
            text::law_text_order(first[i].path@, first[j].path@, first[i].path@);
        }
    }
    sort::law_sorting_forgets_order(first, second);
}

/// A file that can be assembled is not refused.
pub proof fn law_assemblable_file_is_not_refused(parsed: ParsedFile, error: AssemblyError)
    requires
        assemblable(parsed),
    ensures
        !file_refused(parsed, error),
{
    if file_refused(parsed, error) {
        let order = choose|order: Seq<usize>|
            {
                &&& #[trigger] sort::lists_in_order(symbol_ranks(parsed.symbols@), order)
                &&& match error {
                    AssemblyError::DuplicateFile { .. } => false,
                    AssemblyError::DuplicateLocalSymbolId { path, local_id } => {
                        &&& path == parsed.path
                        &&& exists|k: int|
                            {
                                &&& 0 <= k < order.len()
                                &&& #[trigger] repeats_local_id(parsed.symbols@, order, k)
                                &&& local_id == parsed.symbols@[order[k] as int].local_id
                                &&& forall|m: int|
                                    0 <= m < k ==> !#[trigger] repeats_local_id(
                                        parsed.symbols@,
                                        order,
                                        m,
                                    )
                            }
                    },
                    AssemblyError::DanglingLocalSymbolId { path, local_id, relation } => {
                        &&& path == parsed.path
                        &&& forall|k: int|
                            0 <= k < order.len() ==> !#[trigger] repeats_local_id(
                                parsed.symbols@,
                                order,
                                k,
                            )
                        &&& relations_outcome(parsed) == Err::<(), Dangling>(
                            Dangling { local_id, relation: relation@ },
                        )
                    },
                }
            };
        lemma_numbering(parsed.symbols@, order);
    }
}

} // verus!
