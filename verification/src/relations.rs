//! What an assembled model says of the files that it was assembled from.
use crate::assembler;
use crate::assembler::RepositorySpec;
use crate::canonical;
use crate::checks;
use crate::ir::{
    CallEdge, EntryPoint, FileInfo, ImportEdge, Module, ReferenceEdge, RepositoryModel, Symbol,
    TargetResolution,
};
use crate::id::{FileId, ModuleId, SymbolId};
use crate::parser::{
    ParsedCall, ParsedEntryPoint, ParsedFile, ParsedImport, ParsedModule, ParsedReference,
    ParsedSymbol, ParsedSymbolId, ParsedTarget,
};
use crate::renumbering;
use crate::sort;
use vstd::prelude::*;

verus! {

/// Whether an ID is that of the file of the model with the path and the language of a
/// parsed file.
pub open spec fn file_told(model: RepositoryModel, parsed: ParsedFile, id: FileId) -> bool {
    exists|f: int|
        #![trigger model.files@[f]]
        0 <= f < model.files@.len() && model.files@[f].id == id && model.files@[f].path
            == parsed.path && model.files@[f].language == parsed.language
}

/// Whether an ID is that of the module of the model that a parsed file is; without a
/// module there is no ID.
pub open spec fn module_told(
    model: RepositoryModel,
    parsed: ParsedFile,
    id: Option<ModuleId>,
) -> bool {
    match (parsed.module, id) {
        (None, None) => true,
        (Some(module), Some(id)) => exists|m: int|
            #![trigger model.modules@[m]]
            {
                &&& 0 <= m < model.modules@.len()
                &&& model.modules@[m].id == id
                &&& model.modules@[m].name == module.name
                &&& model.modules@[m].qualified_name == module.qualified_name
                &&& model.modules@[m].span == module.span
                &&& model.modules@[m].parent_id is None
                &&& file_told(model, parsed, model.modules@[m].file_id)
            },
        _ => false,
    }
}

/// Whether a parsed file is among the files of the model, and its module among the
/// modules.
#[verifier::opaque]
pub open spec fn file_there(model: RepositoryModel, parsed: ParsedFile) -> bool {
    &&& exists|id: FileId| file_told(model, parsed, id)
    &&& exists|id: Option<ModuleId>| module_told(model, parsed, id)
}

/// Whether a symbol of the model has the name, the kind and the range of a parsed symbol,
/// and is of its file.
pub open spec fn same_symbol(
    model: RepositoryModel,
    parsed: ParsedFile,
    own: ParsedSymbol,
    symbol: Symbol,
) -> bool {
    &&& symbol.name == own.name
    &&& symbol.qualified_name == own.qualified_name
    &&& symbol.kind == own.kind
    &&& symbol.span == own.span
    &&& file_told(model, parsed, symbol.file_id)
    &&& module_told(model, parsed, symbol.module_id)
}

/// Whether an ID is that of the symbol of the model that a local ID means in its file.
pub open spec fn symbol_told(
    model: RepositoryModel,
    parsed: ParsedFile,
    local_id: ParsedSymbolId,
    id: SymbolId,
) -> bool {
    exists|j: int, s: int|
        #![trigger parsed.symbols@[j], model.symbols@[s]]
        {
            &&& 0 <= j < parsed.symbols@.len()
            &&& parsed.symbols@[j].local_id == local_id
            &&& 0 <= s < model.symbols@.len()
            &&& model.symbols@[s].id == id
            &&& same_symbol(model, parsed, parsed.symbols@[j], model.symbols@[s])
        }
}

pub open spec fn optional_told(
    model: RepositoryModel,
    parsed: ParsedFile,
    local_id: Option<ParsedSymbolId>,
    id: Option<SymbolId>,
) -> bool {
    match (local_id, id) {
        (None, None) => true,
        (Some(local_id), Some(id)) => symbol_told(model, parsed, local_id, id),
        _ => false,
    }
}

/// Whether a target is the symbol that a local target means, or keeps the name of one
/// that means none.
pub open spec fn target_told(
    model: RepositoryModel,
    parsed: ParsedFile,
    target: ParsedTarget,
    resolution: TargetResolution<SymbolId>,
) -> bool {
    match (target, resolution) {
        (ParsedTarget::Local(local_id), TargetResolution::Resolved(id)) => symbol_told(
            model,
            parsed,
            local_id,
            id,
        ),
        (ParsedTarget::Unresolved(name), TargetResolution::Unresolved(unresolved)) => {
            &&& unresolved.name == name
            &&& unresolved.reason matches Some(reason) && reason@
                == "cross-file and external resolution is not performed"@
        },
        _ => false,
    }
}

/// Whether a call edge tells a parsed call: who calls, what is called, and where.
#[verifier::opaque]
pub open spec fn call_told(
    model: RepositoryModel,
    parsed: ParsedFile,
    call: ParsedCall,
    edge: CallEdge,
) -> bool {
    &&& file_told(model, parsed, edge.source_file_id)
    &&& optional_told(model, parsed, call.caller_id, edge.caller_id)
    &&& target_told(model, parsed, call.target, edge.target)
    &&& edge.span == call.span
    &&& edge.confidence == call.confidence
}

/// Whether a reference edge tells a parsed reference.
#[verifier::opaque]
pub open spec fn reference_told(
    model: RepositoryModel,
    parsed: ParsedFile,
    reference: ParsedReference,
    edge: ReferenceEdge,
) -> bool {
    &&& file_told(model, parsed, edge.source_file_id)
    &&& optional_told(model, parsed, reference.source_id, edge.source_symbol_id)
    &&& target_told(model, parsed, reference.target, edge.target)
    &&& edge.kind == reference.kind
    &&& edge.span == reference.span
}

/// Whether an import edge tells a parsed import.
#[verifier::opaque]
pub open spec fn import_told(
    model: RepositoryModel,
    parsed: ParsedFile,
    import: ParsedImport,
    edge: ImportEdge,
) -> bool {
    &&& file_told(model, parsed, edge.source_file_id)
    &&& module_told(model, parsed, edge.source_module_id)
    &&& edge.target matches TargetResolution::Unresolved(unresolved) && unresolved.name
        == import.target && (unresolved.reason matches Some(reason) && reason@
        == "cross-file and external resolution is not performed"@)
    &&& edge.span == import.span
    &&& edge.alias == import.alias
}

/// Whether an entry point of the model tells a parsed one.
#[verifier::opaque]
pub open spec fn entry_told(
    model: RepositoryModel,
    parsed: ParsedFile,
    entry: ParsedEntryPoint,
    point: EntryPoint,
) -> bool {
    &&& file_told(model, parsed, point.file_id)
    &&& optional_told(model, parsed, entry.symbol_id, point.symbol_id)
    &&& point.kind == entry.kind
    &&& point.label == entry.label
    &&& point.span == entry.span
}

/// Whether a symbol of the model tells a parsed symbol, its parent with it.
#[verifier::opaque]
pub open spec fn own_symbol_told(
    model: RepositoryModel,
    parsed: ParsedFile,
    own: ParsedSymbol,
    symbol: Symbol,
) -> bool {
    &&& same_symbol(model, parsed, own, symbol)
    &&& optional_told(model, parsed, own.parent_id, symbol.parent_id)
}

/// Lists of the files put together.
spec fn gathered<T>(files: Seq<ParsedFile>, of: spec_fn(ParsedFile) -> Seq<T>) -> Seq<T>
    decreases files.len(),
{
    if files.len() == 0 {
        Seq::empty()
    } else {
        gathered(files.drop_last(), of) + of(files.last())
    }
}

proof fn lemma_gathered<T>(files: Seq<ParsedFile>, of: spec_fn(ParsedFile) -> Seq<T>)
    ensures
        forall|i: int, k: int|
            0 <= i < files.len() && 0 <= k < of(files[i]).len() ==> gathered(files, of).contains(
                #[trigger] of(files[i])[k],
            ),
        forall|x: T| #[trigger]
            gathered(files, of).contains(x) ==> exists|i: int, k: int|
                0 <= i < files.len() && 0 <= k < of(files[i]).len() && #[trigger] of(files[i])[k]
                    == x,
    decreases files.len(),
{
    if files.len() > 0 {
        let last = files.len() - 1;
        let rest = gathered(files.drop_last(), of);
        let all = gathered(files, of);
        lemma_gathered(files.drop_last(), of);
        assert forall|i: int, k: int|
            0 <= i < files.len() && 0 <= k < of(files[i]).len() implies all.contains(
            #[trigger] of(files[i])[k],
        ) by {
            let x = of(files[i])[k];
            if i < last {
                assert(files.drop_last()[i] == files[i]);
                assert(rest.contains(of(files.drop_last()[i])[k]));
                let p = choose|p: int| 0 <= p < rest.len() && rest[p] == x;
                assert(all[p] == x);
            } else {
                assert(all[rest.len() + k] == x);
            }
        }
        assert forall|x: T| #[trigger] all.contains(x) implies exists|i: int, k: int|
            0 <= i < files.len() && 0 <= k < of(files[i]).len() && #[trigger] of(files[i])[k]
                == x by {
            let p = choose|p: int| 0 <= p < all.len() && all[p] == x;
            if p < rest.len() {
                assert(rest[p] == x);
                assert(rest.contains(x));
                let (i, k) = choose|i: int, k: int|
                    0 <= i < files.drop_last().len() && 0 <= k < of(files.drop_last()[i]).len()
                        && #[trigger] of(files.drop_last()[i])[k] == x;
                assert(of(files[i])[k] == x);
            } else {
                assert(of(files[last])[p - rest.len()] == x);
            }
        }
    } else {
        assert forall|x: T| !#[trigger] gathered(files, of).contains(x) by {}
    }
}

spec fn files_in(repository: RepositorySpec, reason: String) -> spec_fn(ParsedFile) -> Seq<
    FileInfo,
> {
    |parsed: ParsedFile| seq![assembler::context_of(repository, parsed, reason).file()]
}

spec fn modules_in(repository: RepositorySpec, reason: String) -> spec_fn(ParsedFile) -> Seq<
    Module,
> {
    |parsed: ParsedFile| assembler::context_of(repository, parsed, reason).modules()
}

spec fn symbols_in(repository: RepositorySpec, reason: String) -> spec_fn(ParsedFile) -> Seq<
    Symbol,
> {
    |parsed: ParsedFile| assembler::context_of(repository, parsed, reason).symbols()
}

spec fn imports_in(repository: RepositorySpec, reason: String) -> spec_fn(ParsedFile) -> Seq<
    ImportEdge,
> {
    |parsed: ParsedFile| assembler::context_of(repository, parsed, reason).imports()
}

spec fn references_in(repository: RepositorySpec, reason: String) -> spec_fn(ParsedFile) -> Seq<
    ReferenceEdge,
> {
    |parsed: ParsedFile| assembler::context_of(repository, parsed, reason).references()
}

spec fn calls_in(repository: RepositorySpec, reason: String) -> spec_fn(ParsedFile) -> Seq<
    CallEdge,
> {
    |parsed: ParsedFile| assembler::context_of(repository, parsed, reason).calls()
}

spec fn entries_in(repository: RepositorySpec, reason: String) -> spec_fn(ParsedFile) -> Seq<
    EntryPoint,
> {
    |parsed: ParsedFile| assembler::context_of(repository, parsed, reason).entry_points()
}

proof fn lemma_all_gathered(repository: RepositorySpec, files: Seq<ParsedFile>, reason: String)
    ensures
        assembler::all_files(repository, files, reason) == gathered(
            files,
            files_in(repository, reason),
        ),
        assembler::all_modules(repository, files, reason) == gathered(
            files,
            modules_in(repository, reason),
        ),
        assembler::all_symbols(repository, files, reason) == gathered(
            files,
            symbols_in(repository, reason),
        ),
        assembler::all_imports(repository, files, reason) == gathered(
            files,
            imports_in(repository, reason),
        ),
        assembler::all_references(repository, files, reason) == gathered(
            files,
            references_in(repository, reason),
        ),
        assembler::all_calls(repository, files, reason) == gathered(
            files,
            calls_in(repository, reason),
        ),
        assembler::all_entry_points(repository, files, reason) == gathered(
            files,
            entries_in(repository, reason),
        ),
    decreases files.len(),
{
    if files.len() > 0 {
        lemma_all_gathered(repository, files.drop_last(), reason);
        assert(assembler::all_files(repository, files, reason) =~= gathered(
            files,
            files_in(repository, reason),
        ));
    }
}

proof fn lemma_sorted_members<T: sort::Ordered>(s: Seq<T>)
    ensures
        sort::stable_sorted(s).len() == s.len(),
        forall|x: T| #[trigger] sort::stable_sorted(s).contains(x) == s.contains(x),
{
    if s.len() > 0 {
        sort::law_stable_sort(s, s[0]);
        canonical::lemma_same_members(s, sort::stable_sorted(s));
    }
}

/// How many records a kind has in all files.
pub open spec fn counted(files: Seq<ParsedFile>, of: spec_fn(ParsedFile) -> nat) -> nat
    decreases files.len(),
{
    if files.len() == 0 {
        0
    } else {
        counted(files.drop_last(), of) + of(files.last())
    }
}

proof fn lemma_counted<T>(
    files: Seq<ParsedFile>,
    of: spec_fn(ParsedFile) -> Seq<T>,
    number: spec_fn(ParsedFile) -> nat,
)
    requires
        forall|parsed: ParsedFile| #[trigger] of(parsed).len() == number(parsed),
    ensures
        gathered(files, of).len() == counted(files, number),
    decreases files.len(),
{
    if files.len() > 0 {
        lemma_counted(files.drop_last(), of, number);
        assert(of(files.last()).len() == number(files.last()));
    }
}

/// Where the members of the lists of a model come from.
proof fn lemma_model_lists(
    repository: RepositorySpec,
    files: Seq<ParsedFile>,
    reason: String,
    model: RepositoryModel,
)
    requires
        assembler::assembles(repository, files, reason, model),
    ensures
        forall|x: FileInfo| #[trigger]
            model.files@.contains(x) == gathered(files, files_in(repository, reason)).contains(x),
        forall|x: Module| #[trigger]
            model.modules@.contains(x) == gathered(
                files,
                modules_in(repository, reason),
            ).contains(x),
        forall|x: Symbol| #[trigger]
            model.symbols@.contains(x) == gathered(
                files,
                symbols_in(repository, reason),
            ).contains(x),
        forall|x: ImportEdge| #[trigger]
            model.imports@.contains(x) == gathered(
                files,
                imports_in(repository, reason),
            ).contains(x),
        forall|x: ReferenceEdge| #[trigger]
            model.references@.contains(x) == gathered(
                files,
                references_in(repository, reason),
            ).contains(x),
        forall|x: CallEdge| #[trigger]
            model.calls@.contains(x) == gathered(files, calls_in(repository, reason)).contains(x),
        forall|x: EntryPoint| #[trigger]
            model.entry_points@.contains(x) == gathered(
                files,
                entries_in(repository, reason),
            ).contains(x),
{
    lemma_all_gathered(repository, files, reason);
    lemma_sorted_members(gathered(files, files_in(repository, reason)));
    lemma_sorted_members(gathered(files, modules_in(repository, reason)));
    lemma_sorted_members(gathered(files, symbols_in(repository, reason)));
    lemma_sorted_members(gathered(files, imports_in(repository, reason)));
    lemma_sorted_members(gathered(files, references_in(repository, reason)));
    lemma_sorted_members(gathered(files, calls_in(repository, reason)));
    lemma_sorted_members(gathered(files, entries_in(repository, reason)));
}

/// The file and the module of a file's records.
proof fn lemma_file_told(
    repository: RepositorySpec,
    files: Seq<ParsedFile>,
    reason: String,
    model: RepositoryModel,
    i: int,
)
    requires
        assembler::assembles(repository, files, reason, model),
        0 <= i < files.len(),
    ensures
        file_told(
            model,
            files[i],
            assembler::context_of(repository, files[i], reason).file_id(),
        ),
        module_told(
            model,
            files[i],
            assembler::context_of(repository, files[i], reason).module_id(),
        ),
{
    let context = assembler::context_of(repository, files[i], reason);
    lemma_model_lists(repository, files, reason, model);
    let of = files_in(repository, reason);
    lemma_gathered(files, of);
    assert(of(files[i])[0] == context.file());
    assert(model.files@.contains(context.file()));
    let f = choose|f: int| 0 <= f < model.files@.len() && model.files@[f] == context.file();
    assert(model.files@[f].id == context.file_id());
    if files[i].module is Some {
        let named = modules_in(repository, reason);
        lemma_gathered(files, named);
        let own = context.modules()[0];
        assert(named(files[i])[0] == own);
        assert(model.modules@.contains(own));
        let m = choose|m: int| 0 <= m < model.modules@.len() && model.modules@[m] == own;
        assert(model.modules@[m].id == context.module_id()->0);
    }
}

/// What a local ID comes to.
proof fn lemma_symbol_told(
    repository: RepositorySpec,
    files: Seq<ParsedFile>,
    reason: String,
    model: RepositoryModel,
    i: int,
    local_id: ParsedSymbolId,
)
    requires
        assembler::assembles(repository, files, reason, model),
        0 <= i < files.len(),
        assembler::local_index(files[i].symbols@, local_id) is Some,
    ensures
        symbol_told(
            model,
            files[i],
            local_id,
            assembler::context_of(repository, files[i], reason).local(local_id),
        ),
{
    let context = assembler::context_of(repository, files[i], reason);
    let symbols = files[i].symbols@;
    checks::lemma_least_index(symbols.len(), assembler::has_local_id(symbols, local_id));
    let j = assembler::local_index(symbols, local_id)->0;
    lemma_model_lists(repository, files, reason, model);
    lemma_file_told(repository, files, reason, model, i);
    let of = symbols_in(repository, reason);
    lemma_gathered(files, of);
    assert(of(files[i])[j] == context.symbol(j));
    assert(model.symbols@.contains(context.symbol(j)));
    let s = choose|s: int| 0 <= s < model.symbols@.len() && model.symbols@[s] == context.symbol(j);
    assert(parsed_is(files[i].symbols@[j], local_id));
    assert(same_symbol(model, files[i], files[i].symbols@[j], model.symbols@[s]));
}

spec fn parsed_is(own: ParsedSymbol, local_id: ParsedSymbolId) -> bool {
    own.local_id == local_id
}

/// What an optional local ID and a target come to.
proof fn lemma_ends_told(
    repository: RepositorySpec,
    files: Seq<ParsedFile>,
    reason: String,
    model: RepositoryModel,
    i: int,
    local_id: Option<ParsedSymbolId>,
    target: ParsedTarget,
)
    requires
        assembler::assembles(repository, files, reason, model),
        reason@ == assembler::unresolved_reason(),
        0 <= i < files.len(),
    ensures
        (local_id is Some ==> assembler::local_index(files[i].symbols@, local_id->0) is Some)
            ==> optional_told(
            model,
            files[i],
            local_id,
            assembler::context_of(repository, files[i], reason).optional(local_id),
        ),
        (target is Local ==> assembler::local_index(files[i].symbols@, target->Local_0) is Some)
            ==> target_told(
            model,
            files[i],
            target,
            assembler::context_of(repository, files[i], reason).target(target),
        ),
{
    if local_id is Some && assembler::local_index(files[i].symbols@, local_id->0) is Some {
        lemma_symbol_told(repository, files, reason, model, i, local_id->0);
    }
    if target is Local && assembler::local_index(files[i].symbols@, target->Local_0) is Some {
        lemma_symbol_told(repository, files, reason, model, i, target->Local_0);
    }
}

proof fn lemma_call_told(
    repository: RepositorySpec,
    files: Seq<ParsedFile>,
    reason: String,
    model: RepositoryModel,
    i: int,
    k: int,
)
    requires
        assembler::assembles(repository, files, reason, model),
        reason@ == assembler::unresolved_reason(),
        0 <= i < files.len(),
        assembler::assemblable(files[i]),
        0 <= k < files[i].calls@.len(),
    ensures
        call_told(
            model,
            files[i],
            files[i].calls@[k],
            assembler::context_of(repository, files[i], reason).call(k),
        ),
{
    reveal(call_told);
    let call = files[i].calls@[k];
    renumbering::lemma_relations_lead_on(files[i]);
    assert(assembler::call_check(files[i].symbols@, call) is Ok);
    lemma_file_told(repository, files, reason, model, i);
    lemma_ends_told(repository, files, reason, model, i, call.caller_id, call.target);
}

proof fn lemma_reference_told(
    repository: RepositorySpec,
    files: Seq<ParsedFile>,
    reason: String,
    model: RepositoryModel,
    i: int,
    k: int,
)
    requires
        assembler::assembles(repository, files, reason, model),
        reason@ == assembler::unresolved_reason(),
        0 <= i < files.len(),
        assembler::assemblable(files[i]),
        0 <= k < files[i].references@.len(),
    ensures
        reference_told(
            model,
            files[i],
            files[i].references@[k],
            assembler::context_of(repository, files[i], reason).reference(k),
        ),
{
    reveal(reference_told);
    let reference = files[i].references@[k];
    renumbering::lemma_relations_lead_on(files[i]);
    assert(assembler::reference_check(files[i].symbols@, reference) is Ok);
    lemma_file_told(repository, files, reason, model, i);
    lemma_ends_told(repository, files, reason, model, i, reference.source_id, reference.target);
}

proof fn lemma_entry_told(
    repository: RepositorySpec,
    files: Seq<ParsedFile>,
    reason: String,
    model: RepositoryModel,
    i: int,
    k: int,
)
    requires
        assembler::assembles(repository, files, reason, model),
        reason@ == assembler::unresolved_reason(),
        0 <= i < files.len(),
        assembler::assemblable(files[i]),
        0 <= k < files[i].entry_points@.len(),
    ensures
        entry_told(
            model,
            files[i],
            files[i].entry_points@[k],
            assembler::context_of(repository, files[i], reason).entry_point(k),
        ),
{
    reveal(entry_told);
    let entry = files[i].entry_points@[k];
    renumbering::lemma_relations_lead_on(files[i]);
    assert(assembler::optional_check(files[i].symbols@, entry.symbol_id, "entry point symbol"@)
        is Ok);
    lemma_file_told(repository, files, reason, model, i);
    lemma_ends_told(
        repository,
        files,
        reason,
        model,
        i,
        entry.symbol_id,
        ParsedTarget::Local(ParsedSymbolId(0)),
    );
}

proof fn lemma_import_told(
    repository: RepositorySpec,
    files: Seq<ParsedFile>,
    reason: String,
    model: RepositoryModel,
    i: int,
    k: int,
)
    requires
        assembler::assembles(repository, files, reason, model),
        reason@ == assembler::unresolved_reason(),
        0 <= i < files.len(),
        0 <= k < files[i].imports@.len(),
    ensures
        import_told(
            model,
            files[i],
            files[i].imports@[k],
            assembler::context_of(repository, files[i], reason).import(k),
        ),
{
    reveal(import_told);
    lemma_file_told(repository, files, reason, model, i);
}

/// The reason of a model's unresolved targets, and that every file can be assembled.
proof fn lemma_assembled(
    repository: RepositorySpec,
    files: Seq<ParsedFile>,
    model: RepositoryModel,
) -> (reason: String)
    requires
        assembler::assembled_from(repository, files, model),
    ensures
        reason@ == assembler::unresolved_reason(),
        assembler::assembles(repository, files, reason, model),
        forall|i: int| 0 <= i < files.len() ==> assembler::assemblable(#[trigger] files[i]),
{
    assert forall|i: int| 0 <= i < files.len() implies assembler::assemblable(
        #[trigger] files[i],
    ) by {
        assert(assembler::addable(files, i));
    }
    choose|reason: String|
        reason@ == assembler::unresolved_reason() && #[trigger] assembler::assembles(
            repository,
            files,
            reason,
            model,
        )
}

proof fn lemma_call_there(
    repository: RepositorySpec,
    files: Seq<ParsedFile>,
    reason: String,
    model: RepositoryModel,
    i: int,
    k: int,
) -> (e: int)
    requires
        assembler::assembles(repository, files, reason, model),
        reason@ == assembler::unresolved_reason(),
        0 <= i < files.len(),
        assembler::assemblable(files[i]),
        0 <= k < files[i].calls@.len(),
    ensures
        0 <= e < model.calls@.len(),
        call_told(model, files[i], files[i].calls@[k], model.calls@[e]),
{
    let of = calls_in(repository, reason);
    let record = assembler::context_of(repository, files[i], reason).call(k);
    assert(model.calls@.contains(record)) by {
        lemma_model_lists(repository, files, reason, model);
        lemma_gathered(files, of);
        assert(of(files[i])[k] == record);
    }
    lemma_call_told(repository, files, reason, model, i, k);
    choose|e: int| 0 <= e < model.calls@.len() && model.calls@[e] == record
}

proof fn lemma_call_stems(
    repository: RepositorySpec,
    files: Seq<ParsedFile>,
    reason: String,
    model: RepositoryModel,
    e: int,
) -> (place: (int, int))
    requires
        assembler::assembles(repository, files, reason, model),
        reason@ == assembler::unresolved_reason(),
        forall|i: int| 0 <= i < files.len() ==> assembler::assemblable(#[trigger] files[i]),
        0 <= e < model.calls@.len(),
    ensures
        0 <= place.0 < files.len(),
        0 <= place.1 < files[place.0].calls@.len(),
        call_told(
            model,
            files[place.0],
            files[place.0].calls@[place.1],
            model.calls@[e],
        ),
{
    let of = calls_in(repository, reason);
    let record = model.calls@[e];
    assert(exists|i: int, k: int|
        0 <= i < files.len() && 0 <= k < of(files[i]).len() && #[trigger] of(files[i])[k]
            == record) by {
        lemma_model_lists(repository, files, reason, model);
        lemma_gathered(files, of);
        assert(model.calls@.contains(record));
        assert(gathered(files, of).contains(record));
    }
    let (i, k) = choose|i: int, k: int|
        0 <= i < files.len() && 0 <= k < of(files[i]).len() && #[trigger] of(files[i])[k]
            == record;
    lemma_call_told(repository, files, reason, model, i, k);
    (i, k)
}

proof fn lemma_calls_counted(
    repository: RepositorySpec,
    files: Seq<ParsedFile>,
    reason: String,
    model: RepositoryModel,
)
    requires
        assembler::assembles(repository, files, reason, model),
    ensures
        model.calls@.len() == counted(files, |parsed: ParsedFile| parsed.calls@.len()),
{
    let of = calls_in(repository, reason);
    lemma_all_gathered(repository, files, reason);
    lemma_sorted_members(gathered(files, of));
    lemma_counted(files, of, |parsed: ParsedFile| parsed.calls@.len());
}

/// Whether the model has a record that tells a parsed one.
#[verifier::opaque]
pub open spec fn call_kept(model: RepositoryModel, parsed: ParsedFile, own: ParsedCall) -> bool {
    exists|e: int|
        0 <= e < model.calls@.len() && call_told(model, parsed, own, #[trigger] model.calls@[e])
}

/// Whether a record of the model tells one that was parsed.
#[verifier::opaque]
pub open spec fn call_parsed(
    model: RepositoryModel,
    files: Seq<ParsedFile>,
    record: CallEdge,
) -> bool {
    exists|i: int, k: int|
        0 <= i < files.len() && 0 <= k < files[i].calls@.len() && call_told(
            model,
            files[i],
            #[trigger] files[i].calls@[k],
            record,
        )
}

/// The calls of a model are the calls that were parsed. Every parsed call has an edge
/// with its range, whose caller and whose target are the symbols of the model with the
/// name, the kind and the range of the parsed symbols that its local IDs mean; a target
/// that means none keeps its name. Every edge is that of a parsed call, and there are as
/// many edges as parsed calls.
pub proof fn law_call_edges_join_the_parsed_symbols(
    repository: RepositorySpec,
    files: Seq<ParsedFile>,
    model: RepositoryModel,
)
    requires
        assembler::assembled_from(repository, files, model),
    ensures
        forall|i: int, k: int|
            0 <= i < files.len() && 0 <= k < files[i].calls@.len() ==> call_kept(
                model,
                files[i],
                #[trigger] files[i].calls@[k],
            ),
        forall|e: int|
            0 <= e < model.calls@.len() ==> call_parsed(
                model,
                files,
                #[trigger] model.calls@[e],
            ),
        model.calls@.len() == counted(files, |parsed: ParsedFile| parsed.calls@.len()),
{
    let reason = lemma_assembled(repository, files, model);
    assert forall|i: int, k: int|
        0 <= i < files.len() && 0 <= k < files[i].calls@.len() implies call_kept(
        model,
        files[i],
        #[trigger] files[i].calls@[k],
    ) by {
        reveal(call_kept);
        let e = lemma_call_there(repository, files, reason, model, i, k);
        assert(call_told(model, files[i], files[i].calls@[k], model.calls@[e]));
    }
    assert forall|e: int| 0 <= e < model.calls@.len() implies call_parsed(
        model,
        files,
        #[trigger] model.calls@[e],
    ) by {
        reveal(call_parsed);
        let (i, k) = lemma_call_stems(repository, files, reason, model, e);
        assert(call_told(model, files[i], files[i].calls@[k], model.calls@[e]));
    }
    lemma_calls_counted(repository, files, reason, model);
}

proof fn lemma_reference_there(
    repository: RepositorySpec,
    files: Seq<ParsedFile>,
    reason: String,
    model: RepositoryModel,
    i: int,
    k: int,
) -> (e: int)
    requires
        assembler::assembles(repository, files, reason, model),
        reason@ == assembler::unresolved_reason(),
        0 <= i < files.len(),
        assembler::assemblable(files[i]),
        0 <= k < files[i].references@.len(),
    ensures
        0 <= e < model.references@.len(),
        reference_told(model, files[i], files[i].references@[k], model.references@[e]),
{
    let of = references_in(repository, reason);
    let record = assembler::context_of(repository, files[i], reason).reference(k);
    assert(model.references@.contains(record)) by {
        lemma_model_lists(repository, files, reason, model);
        lemma_gathered(files, of);
        assert(of(files[i])[k] == record);
    }
    lemma_reference_told(repository, files, reason, model, i, k);
    choose|e: int| 0 <= e < model.references@.len() && model.references@[e] == record
}

proof fn lemma_reference_stems(
    repository: RepositorySpec,
    files: Seq<ParsedFile>,
    reason: String,
    model: RepositoryModel,
    e: int,
) -> (place: (int, int))
    requires
        assembler::assembles(repository, files, reason, model),
        reason@ == assembler::unresolved_reason(),
        forall|i: int| 0 <= i < files.len() ==> assembler::assemblable(#[trigger] files[i]),
        0 <= e < model.references@.len(),
    ensures
        0 <= place.0 < files.len(),
        0 <= place.1 < files[place.0].references@.len(),
        reference_told(
            model,
            files[place.0],
            files[place.0].references@[place.1],
            model.references@[e],
        ),
{
    let of = references_in(repository, reason);
    let record = model.references@[e];
    assert(exists|i: int, k: int|
        0 <= i < files.len() && 0 <= k < of(files[i]).len() && #[trigger] of(files[i])[k]
            == record) by {
        lemma_model_lists(repository, files, reason, model);
        lemma_gathered(files, of);
        assert(model.references@.contains(record));
        assert(gathered(files, of).contains(record));
    }
    let (i, k) = choose|i: int, k: int|
        0 <= i < files.len() && 0 <= k < of(files[i]).len() && #[trigger] of(files[i])[k]
            == record;
    lemma_reference_told(repository, files, reason, model, i, k);
    (i, k)
}

proof fn lemma_references_counted(
    repository: RepositorySpec,
    files: Seq<ParsedFile>,
    reason: String,
    model: RepositoryModel,
)
    requires
        assembler::assembles(repository, files, reason, model),
    ensures
        model.references@.len() == counted(files, |parsed: ParsedFile| parsed.references@.len()),
{
    let of = references_in(repository, reason);
    lemma_all_gathered(repository, files, reason);
    lemma_sorted_members(gathered(files, of));
    lemma_counted(files, of, |parsed: ParsedFile| parsed.references@.len());
}

/// Whether the model has a record that tells a parsed one.
#[verifier::opaque]
pub open spec fn reference_kept(model: RepositoryModel, parsed: ParsedFile, own: ParsedReference) -> bool {
    exists|e: int|
        0 <= e < model.references@.len() && reference_told(model, parsed, own, #[trigger] model.references@[e])
}

/// Whether a record of the model tells one that was parsed.
#[verifier::opaque]
pub open spec fn reference_parsed(
    model: RepositoryModel,
    files: Seq<ParsedFile>,
    record: ReferenceEdge,
) -> bool {
    exists|i: int, k: int|
        0 <= i < files.len() && 0 <= k < files[i].references@.len() && reference_told(
            model,
            files[i],
            #[trigger] files[i].references@[k],
            record,
        )
}

/// The references of a model are the references that were parsed, each between the
/// symbols that its local IDs mean.
pub proof fn law_reference_edges_join_the_parsed_symbols(
    repository: RepositorySpec,
    files: Seq<ParsedFile>,
    model: RepositoryModel,
)
    requires
        assembler::assembled_from(repository, files, model),
    ensures
        forall|i: int, k: int|
            0 <= i < files.len() && 0 <= k < files[i].references@.len() ==> reference_kept(
                model,
                files[i],
                #[trigger] files[i].references@[k],
            ),
        forall|e: int|
            0 <= e < model.references@.len() ==> reference_parsed(
                model,
                files,
                #[trigger] model.references@[e],
            ),
        model.references@.len() == counted(files, |parsed: ParsedFile| parsed.references@.len()),
{
    let reason = lemma_assembled(repository, files, model);
    assert forall|i: int, k: int|
        0 <= i < files.len() && 0 <= k < files[i].references@.len() implies reference_kept(
        model,
        files[i],
        #[trigger] files[i].references@[k],
    ) by {
        reveal(reference_kept);
        let e = lemma_reference_there(repository, files, reason, model, i, k);
        assert(reference_told(model, files[i], files[i].references@[k], model.references@[e]));
    }
    assert forall|e: int| 0 <= e < model.references@.len() implies reference_parsed(
        model,
        files,
        #[trigger] model.references@[e],
    ) by {
        reveal(reference_parsed);
        let (i, k) = lemma_reference_stems(repository, files, reason, model, e);
        assert(reference_told(model, files[i], files[i].references@[k], model.references@[e]));
    }
    lemma_references_counted(repository, files, reason, model);
}

proof fn lemma_entry_there(
    repository: RepositorySpec,
    files: Seq<ParsedFile>,
    reason: String,
    model: RepositoryModel,
    i: int,
    k: int,
) -> (e: int)
    requires
        assembler::assembles(repository, files, reason, model),
        reason@ == assembler::unresolved_reason(),
        0 <= i < files.len(),
        assembler::assemblable(files[i]),
        0 <= k < files[i].entry_points@.len(),
    ensures
        0 <= e < model.entry_points@.len(),
        entry_told(model, files[i], files[i].entry_points@[k], model.entry_points@[e]),
{
    let of = entries_in(repository, reason);
    let record = assembler::context_of(repository, files[i], reason).entry_point(k);
    assert(model.entry_points@.contains(record)) by {
        lemma_model_lists(repository, files, reason, model);
        lemma_gathered(files, of);
        assert(of(files[i])[k] == record);
    }
    lemma_entry_told(repository, files, reason, model, i, k);
    choose|e: int| 0 <= e < model.entry_points@.len() && model.entry_points@[e] == record
}

proof fn lemma_entry_stems(
    repository: RepositorySpec,
    files: Seq<ParsedFile>,
    reason: String,
    model: RepositoryModel,
    e: int,
) -> (place: (int, int))
    requires
        assembler::assembles(repository, files, reason, model),
        reason@ == assembler::unresolved_reason(),
        forall|i: int| 0 <= i < files.len() ==> assembler::assemblable(#[trigger] files[i]),
        0 <= e < model.entry_points@.len(),
    ensures
        0 <= place.0 < files.len(),
        0 <= place.1 < files[place.0].entry_points@.len(),
        entry_told(
            model,
            files[place.0],
            files[place.0].entry_points@[place.1],
            model.entry_points@[e],
        ),
{
    let of = entries_in(repository, reason);
    let record = model.entry_points@[e];
    assert(exists|i: int, k: int|
        0 <= i < files.len() && 0 <= k < of(files[i]).len() && #[trigger] of(files[i])[k]
            == record) by {
        lemma_model_lists(repository, files, reason, model);
        lemma_gathered(files, of);
        assert(model.entry_points@.contains(record));
        assert(gathered(files, of).contains(record));
    }
    let (i, k) = choose|i: int, k: int|
        0 <= i < files.len() && 0 <= k < of(files[i]).len() && #[trigger] of(files[i])[k]
            == record;
    lemma_entry_told(repository, files, reason, model, i, k);
    (i, k)
}

proof fn lemma_entry_points_counted(
    repository: RepositorySpec,
    files: Seq<ParsedFile>,
    reason: String,
    model: RepositoryModel,
)
    requires
        assembler::assembles(repository, files, reason, model),
    ensures
        model.entry_points@.len() == counted(files, |parsed: ParsedFile| parsed.entry_points@.len()),
{
    let of = entries_in(repository, reason);
    lemma_all_gathered(repository, files, reason);
    lemma_sorted_members(gathered(files, of));
    lemma_counted(files, of, |parsed: ParsedFile| parsed.entry_points@.len());
}

/// Whether the model has a record that tells a parsed one.
#[verifier::opaque]
pub open spec fn entry_kept(model: RepositoryModel, parsed: ParsedFile, own: ParsedEntryPoint) -> bool {
    exists|e: int|
        0 <= e < model.entry_points@.len() && entry_told(model, parsed, own, #[trigger] model.entry_points@[e])
}

/// Whether a record of the model tells one that was parsed.
#[verifier::opaque]
pub open spec fn entry_parsed(
    model: RepositoryModel,
    files: Seq<ParsedFile>,
    record: EntryPoint,
) -> bool {
    exists|i: int, k: int|
        0 <= i < files.len() && 0 <= k < files[i].entry_points@.len() && entry_told(
            model,
            files[i],
            #[trigger] files[i].entry_points@[k],
            record,
        )
}

/// The entry points of a model are those that were parsed, each at the symbol that its
/// local ID means.
pub proof fn law_entry_points_are_the_parsed_ones(
    repository: RepositorySpec,
    files: Seq<ParsedFile>,
    model: RepositoryModel,
)
    requires
        assembler::assembled_from(repository, files, model),
    ensures
        forall|i: int, k: int|
            0 <= i < files.len() && 0 <= k < files[i].entry_points@.len() ==> entry_kept(
                model,
                files[i],
                #[trigger] files[i].entry_points@[k],
            ),
        forall|e: int|
            0 <= e < model.entry_points@.len() ==> entry_parsed(
                model,
                files,
                #[trigger] model.entry_points@[e],
            ),
        model.entry_points@.len() == counted(files, |parsed: ParsedFile| parsed.entry_points@.len()),
{
    let reason = lemma_assembled(repository, files, model);
    assert forall|i: int, k: int|
        0 <= i < files.len() && 0 <= k < files[i].entry_points@.len() implies entry_kept(
        model,
        files[i],
        #[trigger] files[i].entry_points@[k],
    ) by {
        reveal(entry_kept);
        let e = lemma_entry_there(repository, files, reason, model, i, k);
        assert(entry_told(model, files[i], files[i].entry_points@[k], model.entry_points@[e]));
    }
    assert forall|e: int| 0 <= e < model.entry_points@.len() implies entry_parsed(
        model,
        files,
        #[trigger] model.entry_points@[e],
    ) by {
        reveal(entry_parsed);
        let (i, k) = lemma_entry_stems(repository, files, reason, model, e);
        assert(entry_told(model, files[i], files[i].entry_points@[k], model.entry_points@[e]));
    }
    lemma_entry_points_counted(repository, files, reason, model);
}

proof fn lemma_import_there(
    repository: RepositorySpec,
    files: Seq<ParsedFile>,
    reason: String,
    model: RepositoryModel,
    i: int,
    k: int,
) -> (e: int)
    requires
        assembler::assembles(repository, files, reason, model),
        reason@ == assembler::unresolved_reason(),
        0 <= i < files.len(),
        0 <= k < files[i].imports@.len(),
    ensures
        0 <= e < model.imports@.len(),
        import_told(model, files[i], files[i].imports@[k], model.imports@[e]),
{
    let of = imports_in(repository, reason);
    let record = assembler::context_of(repository, files[i], reason).import(k);
    assert(model.imports@.contains(record)) by {
        lemma_model_lists(repository, files, reason, model);
        lemma_gathered(files, of);
        assert(of(files[i])[k] == record);
    }
    lemma_import_told(repository, files, reason, model, i, k);
    choose|e: int| 0 <= e < model.imports@.len() && model.imports@[e] == record
}

proof fn lemma_import_stems(
    repository: RepositorySpec,
    files: Seq<ParsedFile>,
    reason: String,
    model: RepositoryModel,
    e: int,
) -> (place: (int, int))
    requires
        assembler::assembles(repository, files, reason, model),
        reason@ == assembler::unresolved_reason(),
        0 <= e < model.imports@.len(),
    ensures
        0 <= place.0 < files.len(),
        0 <= place.1 < files[place.0].imports@.len(),
        import_told(
            model,
            files[place.0],
            files[place.0].imports@[place.1],
            model.imports@[e],
        ),
{
    let of = imports_in(repository, reason);
    let record = model.imports@[e];
    assert(exists|i: int, k: int|
        0 <= i < files.len() && 0 <= k < of(files[i]).len() && #[trigger] of(files[i])[k]
            == record) by {
        lemma_model_lists(repository, files, reason, model);
        lemma_gathered(files, of);
        assert(model.imports@.contains(record));
        assert(gathered(files, of).contains(record));
    }
    let (i, k) = choose|i: int, k: int|
        0 <= i < files.len() && 0 <= k < of(files[i]).len() && #[trigger] of(files[i])[k]
            == record;
    lemma_import_told(repository, files, reason, model, i, k);
    (i, k)
}

proof fn lemma_imports_counted(
    repository: RepositorySpec,
    files: Seq<ParsedFile>,
    reason: String,
    model: RepositoryModel,
)
    requires
        assembler::assembles(repository, files, reason, model),
    ensures
        model.imports@.len() == counted(files, |parsed: ParsedFile| parsed.imports@.len()),
{
    let of = imports_in(repository, reason);
    lemma_all_gathered(repository, files, reason);
    lemma_sorted_members(gathered(files, of));
    lemma_counted(files, of, |parsed: ParsedFile| parsed.imports@.len());
}

/// Whether the model has a record that tells a parsed one.
#[verifier::opaque]
pub open spec fn import_kept(model: RepositoryModel, parsed: ParsedFile, own: ParsedImport) -> bool {
    exists|e: int|
        0 <= e < model.imports@.len() && import_told(model, parsed, own, #[trigger] model.imports@[e])
}

/// Whether a record of the model tells one that was parsed.
#[verifier::opaque]
pub open spec fn import_parsed(
    model: RepositoryModel,
    files: Seq<ParsedFile>,
    record: ImportEdge,
) -> bool {
    exists|i: int, k: int|
        0 <= i < files.len() && 0 <= k < files[i].imports@.len() && import_told(
            model,
            files[i],
            #[trigger] files[i].imports@[k],
            record,
        )
}

/// The imports of a model are those that were parsed, each with its target, its alias
/// and its range, in the file and the module that it stands in.
pub proof fn law_import_edges_are_the_parsed_ones(
    repository: RepositorySpec,
    files: Seq<ParsedFile>,
    model: RepositoryModel,
)
    requires
        assembler::assembled_from(repository, files, model),
    ensures
        forall|i: int, k: int|
            0 <= i < files.len() && 0 <= k < files[i].imports@.len() ==> import_kept(
                model,
                files[i],
                #[trigger] files[i].imports@[k],
            ),
        forall|e: int|
            0 <= e < model.imports@.len() ==> import_parsed(
                model,
                files,
                #[trigger] model.imports@[e],
            ),
        model.imports@.len() == counted(files, |parsed: ParsedFile| parsed.imports@.len()),
{
    let reason = lemma_assembled(repository, files, model);
    assert forall|i: int, k: int|
        0 <= i < files.len() && 0 <= k < files[i].imports@.len() implies import_kept(
        model,
        files[i],
        #[trigger] files[i].imports@[k],
    ) by {
        reveal(import_kept);
        let e = lemma_import_there(repository, files, reason, model, i, k);
        assert(import_told(model, files[i], files[i].imports@[k], model.imports@[e]));
    }
    assert forall|e: int| 0 <= e < model.imports@.len() implies import_parsed(
        model,
        files,
        #[trigger] model.imports@[e],
    ) by {
        reveal(import_parsed);
        let (i, k) = lemma_import_stems(repository, files, reason, model, e);
        assert(import_told(model, files[i], files[i].imports@[k], model.imports@[e]));
    }
    lemma_imports_counted(repository, files, reason, model);
}

proof fn lemma_own_symbol_there(
    repository: RepositorySpec,
    files: Seq<ParsedFile>,
    reason: String,
    model: RepositoryModel,
    i: int,
    k: int,
) -> (e: int)
    requires
        assembler::assembles(repository, files, reason, model),
        reason@ == assembler::unresolved_reason(),
        0 <= i < files.len(),
        assembler::assemblable(files[i]),
        0 <= k < files[i].symbols@.len(),
    ensures
        0 <= e < model.symbols@.len(),
        own_symbol_told(model, files[i], files[i].symbols@[k], model.symbols@[e]),
{
    let of = symbols_in(repository, reason);
    let record = assembler::context_of(repository, files[i], reason).symbol(k);
    assert(model.symbols@.contains(record)) by {
        lemma_model_lists(repository, files, reason, model);
        lemma_gathered(files, of);
        assert(of(files[i])[k] == record);
    }
    lemma_own_symbol_told(repository, files, reason, model, i, k);
    choose|e: int| 0 <= e < model.symbols@.len() && model.symbols@[e] == record
}

proof fn lemma_own_symbol_stems(
    repository: RepositorySpec,
    files: Seq<ParsedFile>,
    reason: String,
    model: RepositoryModel,
    e: int,
) -> (place: (int, int))
    requires
        assembler::assembles(repository, files, reason, model),
        reason@ == assembler::unresolved_reason(),
        forall|i: int| 0 <= i < files.len() ==> assembler::assemblable(#[trigger] files[i]),
        0 <= e < model.symbols@.len(),
    ensures
        0 <= place.0 < files.len(),
        0 <= place.1 < files[place.0].symbols@.len(),
        own_symbol_told(
            model,
            files[place.0],
            files[place.0].symbols@[place.1],
            model.symbols@[e],
        ),
{
    let of = symbols_in(repository, reason);
    let record = model.symbols@[e];
    assert(exists|i: int, k: int|
        0 <= i < files.len() && 0 <= k < of(files[i]).len() && #[trigger] of(files[i])[k]
            == record) by {
        lemma_model_lists(repository, files, reason, model);
        lemma_gathered(files, of);
        assert(model.symbols@.contains(record));
        assert(gathered(files, of).contains(record));
    }
    let (i, k) = choose|i: int, k: int|
        0 <= i < files.len() && 0 <= k < of(files[i]).len() && #[trigger] of(files[i])[k]
            == record;
    lemma_own_symbol_told(repository, files, reason, model, i, k);
    (i, k)
}

proof fn lemma_symbols_counted(
    repository: RepositorySpec,
    files: Seq<ParsedFile>,
    reason: String,
    model: RepositoryModel,
)
    requires
        assembler::assembles(repository, files, reason, model),
    ensures
        model.symbols@.len() == counted(files, |parsed: ParsedFile| parsed.symbols@.len()),
{
    let of = symbols_in(repository, reason);
    lemma_all_gathered(repository, files, reason);
    lemma_sorted_members(gathered(files, of));
    lemma_counted(files, of, |parsed: ParsedFile| parsed.symbols@.len());
}

/// Whether the model has a record that tells a parsed one.
#[verifier::opaque]
pub open spec fn own_symbol_kept(model: RepositoryModel, parsed: ParsedFile, own: ParsedSymbol) -> bool {
    exists|e: int|
        0 <= e < model.symbols@.len() && own_symbol_told(model, parsed, own, #[trigger] model.symbols@[e])
}

/// Whether a record of the model tells one that was parsed.
#[verifier::opaque]
pub open spec fn own_symbol_parsed(
    model: RepositoryModel,
    files: Seq<ParsedFile>,
    record: Symbol,
) -> bool {
    exists|i: int, k: int|
        0 <= i < files.len() && 0 <= k < files[i].symbols@.len() && own_symbol_told(
            model,
            files[i],
            #[trigger] files[i].symbols@[k],
            record,
        )
}

/// The symbols of a model are those that were parsed, each with its names, its kind, its
/// range, its file, its module and the symbol that its parent's local ID means.
pub proof fn law_symbols_are_the_parsed_ones(
    repository: RepositorySpec,
    files: Seq<ParsedFile>,
    model: RepositoryModel,
)
    requires
        assembler::assembled_from(repository, files, model),
    ensures
        forall|i: int, k: int|
            0 <= i < files.len() && 0 <= k < files[i].symbols@.len() ==> own_symbol_kept(
                model,
                files[i],
                #[trigger] files[i].symbols@[k],
            ),
        forall|e: int|
            0 <= e < model.symbols@.len() ==> own_symbol_parsed(
                model,
                files,
                #[trigger] model.symbols@[e],
            ),
        model.symbols@.len() == counted(files, |parsed: ParsedFile| parsed.symbols@.len()),
{
    let reason = lemma_assembled(repository, files, model);
    assert forall|i: int, k: int|
        0 <= i < files.len() && 0 <= k < files[i].symbols@.len() implies own_symbol_kept(
        model,
        files[i],
        #[trigger] files[i].symbols@[k],
    ) by {
        reveal(own_symbol_kept);
        let e = lemma_own_symbol_there(repository, files, reason, model, i, k);
        assert(own_symbol_told(model, files[i], files[i].symbols@[k], model.symbols@[e]));
    }
    assert forall|e: int| 0 <= e < model.symbols@.len() implies own_symbol_parsed(
        model,
        files,
        #[trigger] model.symbols@[e],
    ) by {
        reveal(own_symbol_parsed);
        let (i, k) = lemma_own_symbol_stems(repository, files, reason, model, e);
        assert(own_symbol_told(model, files[i], files[i].symbols@[k], model.symbols@[e]));
    }
    lemma_symbols_counted(repository, files, reason, model);
}

/// The files of a model are the parsed files, one for each, and the module of every
/// parsed file is there.
pub proof fn law_files_are_the_parsed_ones(
    repository: RepositorySpec,
    files: Seq<ParsedFile>,
    model: RepositoryModel,
)
    requires
        assembler::assembled_from(repository, files, model),
    ensures
        model.files@.len() == files.len(),
        forall|f: int|
            0 <= f < model.files@.len() ==> exists|i: int|
                0 <= i < files.len() && (#[trigger] files[i]).path == (
                #[trigger] model.files@[f]).path && files[i].language == model.files@[f].language,
        forall|i: int| 0 <= i < files.len() ==> file_there(model, #[trigger] files[i]),
{
    let reason = lemma_assembled(repository, files, model);
    let listed = files_in(repository, reason);
    assert(model.files@.len() == files.len()) by {
        lemma_all_gathered(repository, files, reason);
        lemma_sorted_members(gathered(files, listed));
        lemma_one_each(files, listed);
    }
    assert forall|f: int| 0 <= f < model.files@.len() implies exists|i: int|
        0 <= i < files.len() && (#[trigger] files[i]).path == (#[trigger] model.files@[f]).path
            && files[i].language == model.files@[f].language by {
        let info = model.files@[f];
        lemma_model_lists(repository, files, reason, model);
        lemma_gathered(files, listed);
        assert(model.files@.contains(info));
        assert(gathered(files, listed).contains(info));
        let (i, k) = choose|i: int, k: int|
            0 <= i < files.len() && 0 <= k < listed(files[i]).len() && #[trigger] listed(
                files[i],
            )[k] == info;
        assert(files[i].path == info.path);
    }
    assert forall|i: int| 0 <= i < files.len() implies file_there(model, #[trigger] files[i]) by {
        reveal(file_there);
        lemma_file_told(repository, files, reason, model, i);
    }
}

proof fn lemma_one_each<T>(files: Seq<ParsedFile>, of: spec_fn(ParsedFile) -> Seq<T>)
    requires
        forall|parsed: ParsedFile| #[trigger] of(parsed).len() == 1,
    ensures
        gathered(files, of).len() == files.len(),
    decreases files.len(),
{
    if files.len() > 0 {
        lemma_one_each(files.drop_last(), of);
        assert(of(files.last()).len() == 1);
    }
}

proof fn lemma_own_symbol_told(
    repository: RepositorySpec,
    files: Seq<ParsedFile>,
    reason: String,
    model: RepositoryModel,
    i: int,
    k: int,
)
    requires
        assembler::assembles(repository, files, reason, model),
        reason@ == assembler::unresolved_reason(),
        0 <= i < files.len(),
        assembler::assemblable(files[i]),
        0 <= k < files[i].symbols@.len(),
    ensures
        own_symbol_told(
            model,
            files[i],
            files[i].symbols@[k],
            assembler::context_of(repository, files[i], reason).symbol(k),
        ),
{
    reveal(own_symbol_told);
    let own = files[i].symbols@[k];
    renumbering::lemma_relations_lead_on(files[i]);
    assert(assembler::optional_check(files[i].symbols@, own.parent_id, "symbol parent"@) is Ok);
    lemma_file_told(repository, files, reason, model, i);
    lemma_ends_told(
        repository,
        files,
        reason,
        model,
        i,
        own.parent_id,
        ParsedTarget::Local(ParsedSymbolId(0)),
    );
}

} // verus!
