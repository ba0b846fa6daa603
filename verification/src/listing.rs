//! In what order records are listed, and what their IDs are made of.
use crate::assembler;
use crate::assembler::FileContext;
use crate::diagnostic::{DiagnosticSeverity, DiagnosticStage, FileDiagnostic};
use crate::id;
use crate::indexer;
use crate::ir::{EntryPointKind, Language, ReferenceKind, RepositoryModel, SymbolKind};
use crate::sort;
use crate::sort::Ordered;
use crate::text;
use vstd::prelude::*;

verus! {

/// Whether the files of a model are listed by path, and all else by ID.
pub open spec fn listed_in_order(model: RepositoryModel) -> bool {
    &&& forall|i: int, j: int|
        0 <= i < j < model.files@.len() ==> !text::before(
            (#[trigger] model.files@[j]).path@,
            (#[trigger] model.files@[i]).path@,
        )
    &&& forall|i: int, j: int|
        0 <= i < j < model.modules@.len() ==> (#[trigger] model.modules@[i]).id.value <= (
        #[trigger] model.modules@[j]).id.value
    &&& forall|i: int, j: int|
        0 <= i < j < model.symbols@.len() ==> (#[trigger] model.symbols@[i]).id.value <= (
        #[trigger] model.symbols@[j]).id.value
    &&& forall|i: int, j: int|
        0 <= i < j < model.imports@.len() ==> (#[trigger] model.imports@[i]).id.value <= (
        #[trigger] model.imports@[j]).id.value
    &&& forall|i: int, j: int|
        0 <= i < j < model.references@.len() ==> (#[trigger] model.references@[i]).id.value <= (
        #[trigger] model.references@[j]).id.value
    &&& forall|i: int, j: int|
        0 <= i < j < model.calls@.len() ==> (#[trigger] model.calls@[i]).id.value <= (
        #[trigger] model.calls@[j]).id.value
    &&& forall|i: int, j: int|
        0 <= i < j < model.entry_points@.len() ==> (#[trigger] model.entry_points@[i]).id.value
            <= (#[trigger] model.entry_points@[j]).id.value
}

/// The files of a model are listed by path, and all else by ID.
pub proof fn law_model_is_listed_in_order(before: RepositoryModel, after: RepositoryModel)
    requires
        indexer::model_sorted(before, after),
    ensures
        listed_in_order(after),
{
    sort::law_stable_sort(before.files@, before.files@[0]);
    sort::law_stable_sort(before.modules@, before.modules@[0]);
    sort::law_stable_sort(before.symbols@, before.symbols@[0]);
    sort::law_stable_sort(before.imports@, before.imports@[0]);
    sort::law_stable_sort(before.references@, before.references@[0]);
    sort::law_stable_sort(before.calls@, before.calls@[0]);
    sort::law_stable_sort(before.entry_points@, before.entry_points@[0]);
}

/// Whether the work of one stage is done before that of another.
pub open spec fn earlier_stage(left: DiagnosticStage, right: DiagnosticStage) -> bool {
    match left {
        DiagnosticStage::Scan => right != DiagnosticStage::Scan,
        DiagnosticStage::Parse => right == DiagnosticStage::Assemble || right
            == DiagnosticStage::Cache,
        DiagnosticStage::Assemble => right == DiagnosticStage::Cache,
        DiagnosticStage::Cache => false,
    }
}

/// Diagnostics stand in the order of their paths, those without a path first; those of
/// one path in the order of the stages, warnings before errors, and then by code and
/// message.
pub proof fn law_diagnostics_stand_in_order(diagnostics: Seq<FileDiagnostic>, i: int, j: int)
    requires
        sort::sorted(diagnostics),
        0 <= i < j < diagnostics.len(),
    ensures
        ({
            let first = diagnostics[i];
            let last = diagnostics[j];
            let same_path = match (first.path, last.path) {
                (None, None) => true,
                (Some(left), Some(right)) => left@ == right@,
                _ => false,
            };
            &&& last.path is None ==> first.path is None
            &&& (first.path matches Some(left) && last.path matches Some(right) && text::before(
                right@,
                left@,
            )) ==> false
            &&& same_path ==> !earlier_stage(last.stage, first.stage)
            &&& same_path && first.stage == last.stage ==> !(first.severity
                == DiagnosticSeverity::Error && last.severity == DiagnosticSeverity::Warning)
            &&& same_path && first.stage == last.stage && first.severity == last.severity
                ==> !text::before(last.code@, first.code@)
            &&& same_path && first.stage == last.stage && first.severity == last.severity
                && first.code@ == last.code@ ==> !text::before(last.message@, first.message@)
        }),
{
    assert(!diagnostics[j].precedes(diagnostics[i]));
    text::law_text_order(diagnostics[i].code@, diagnostics[i].code@, diagnostics[i].code@);
    match (diagnostics[i].path, diagnostics[j].path) {
        (Some(left), Some(right)) => {
            text::law_text_order(left@, left@, left@);
        },
        _ => {},
    }
}

/// Whether an ID is made of a list of texts that has certain ones.
pub open spec fn made_of(kind: Seq<char>, value: u128, needed: Seq<Seq<char>>) -> bool {
    exists|parts: Seq<Seq<char>>|
        value == #[trigger] id::stable_value(kind, parts) && forall|i: int|
            0 <= i < needed.len() ==> parts.contains(#[trigger] needed[i])
}

proof fn lemma_made_of(kind: Seq<char>, parts: Seq<Seq<char>>)
    ensures
        made_of(kind, id::stable_value(kind, parts), parts),
{
    assert forall|i: int| 0 <= i < parts.len() implies parts.contains(#[trigger] parts[i]) by {}
}

/// The ID of every record tells the repository, the file and what sets the record apart:
/// of a call who calls what, of a reference also how, of an import what is imported and
/// under which name, of an entry point its kind and label; and of all of them the range.
pub proof fn law_ids_are_made_of_what_sets_records_apart(context: FileContext, i: int)
    ensures
        ({
            let call = context.call(i);
            made_of(
                "call-edge"@,
                call.id.value,
                seq![
                    context.repository,
                    context.parsed.path@,
                    assembler::optional_key(call.caller_id),
                    assembler::target_text(call.target),
                    assembler::span_text(call.span@),
                ],
            )
        }),
        ({
            let reference = context.reference(i);
            made_of(
                "reference-edge"@,
                reference.id.value,
                seq![
                    context.repository,
                    context.parsed.path@,
                    assembler::optional_key(reference.source_symbol_id),
                    assembler::target_text(reference.target),
                    reference.kind.key(),
                    assembler::span_text(reference.span@),
                ],
            )
        }),
        ({
            let import = context.import(i);
            made_of(
                "import-edge"@,
                import.id.value,
                seq![
                    context.repository,
                    context.parsed.path@,
                    context.parsed.imports@[i].target@,
                    (match import.alias {
                        Some(alias) => alias@,
                        None => Seq::empty(),
                    }),
                    assembler::span_text(import.span@),
                ],
            )
        }),
        ({
            let point = context.entry_point(i);
            made_of(
                "entry-point"@,
                point.id.value,
                seq![
                    context.repository,
                    context.parsed.path@,
                    point.kind.key(),
                    point.label@,
                    assembler::optional_key(point.symbol_id),
                    assembler::span_text(point.span@),
                ],
            )
        }),
        made_of(
            "file"@,
            context.file_id().value,
            seq![context.repository, context.parsed.path@],
        ),
        context.parsed.module matches Some(module) ==> (context.module_id() matches Some(own)
            && made_of(
            "module"@,
            own.value,
            seq![context.repository, context.parsed.path@, module.qualified_name@],
        )),
{
    let call = context.call(i);
    let reference = context.reference(i);
    let import = context.import(i);
    let point = context.entry_point(i);
    lemma_made_of(
        "call-edge"@,
        seq![
            context.repository,
            context.parsed.path@,
            assembler::optional_key(call.caller_id),
            assembler::target_text(call.target),
            assembler::span_text(call.span@),
        ],
    );
    lemma_made_of(
        "reference-edge"@,
        seq![
            context.repository,
            context.parsed.path@,
            assembler::optional_key(reference.source_symbol_id),
            assembler::target_text(reference.target),
            reference.kind.key(),
            assembler::span_text(reference.span@),
        ],
    );
    lemma_made_of(
        "import-edge"@,
        seq![
            context.repository,
            context.parsed.path@,
            context.parsed.imports@[i].target@,
            (match import.alias {
                Some(alias) => alias@,
                None => Seq::empty(),
            }),
            assembler::span_text(import.span@),
        ],
    );
    lemma_made_of(
        "entry-point"@,
        seq![
            context.repository,
            context.parsed.path@,
            point.kind.key(),
            point.label@,
            assembler::optional_key(point.symbol_id),
            assembler::span_text(point.span@),
        ],
    );
    lemma_made_of("file"@, seq![context.repository, context.parsed.path@]);
    match context.parsed.module {
        Some(module) => {
            lemma_made_of(
                "module"@,
                seq![context.repository, context.parsed.path@, module.qualified_name@],
            );
        },
        None => {},
    }
}

/// The keys of two values are the same only where the values are.
pub proof fn law_language_keys_are_apart(left: Language, right: Language)
    requires
        left.key() == right.key(),
    ensures
        ({
            ||| left is Rust && right is Rust
            ||| left is Python && right is Python
            ||| left is C && right is C
            ||| left is Cpp && right is Cpp
            ||| left is Java && right is Java
            ||| left is JavaScript && right is JavaScript
            ||| left is TypeScript && right is TypeScript
            ||| left is Go && right is Go
            ||| left matches Language::Other(a) && right matches Language::Other(b) && a@ == b@
        }),
{
    reveal_strlit("rust");
    reveal_strlit("python");
    reveal_strlit("c");
    reveal_strlit("cpp");
    reveal_strlit("java");
    reveal_strlit("javascript");
    reveal_strlit("typescript");
    reveal_strlit("go");
    reveal_strlit("other:");
    assert("rust"@.len() == 4 && "rust"@[0] == 'r' && "rust"@[1] == 'u' && "rust"@[2] == 's');
    assert("python"@.len() == 6 && "python"@[0] == 'p' && "python"@[1] == 'y' && "python"@[2] == 't');
    assert("c"@.len() == 1 && "c"@[0] == 'c');
    assert("cpp"@.len() == 3 && "cpp"@[0] == 'c' && "cpp"@[1] == 'p' && "cpp"@[2] == 'p');
    assert("java"@.len() == 4 && "java"@[0] == 'j' && "java"@[1] == 'a' && "java"@[2] == 'v');
    assert("javascript"@.len() == 10 && "javascript"@[0] == 'j' && "javascript"@[1] == 'a' && "javascript"@[2] == 'v');
    assert("typescript"@.len() == 10 && "typescript"@[0] == 't' && "typescript"@[1] == 'y' && "typescript"@[2] == 'p');
    assert("go"@.len() == 2 && "go"@[0] == 'g' && "go"@[1] == 'o');
    assert("other:"@.len() == 6 && "other:"@[0] == 'o' && "other:"@[1] == 't' && "other:"@[2] == 'h');
    match (left, right) {
        (Language::Other(a), Language::Other(b)) => {
            if left.key() == right.key() {
                assert(left.key().skip(6) =~= a@);
                assert(right.key().skip(6) =~= b@);
            }
        },
        (Language::Other(a), _) => {
            assert(left.key()[0] == 'o');
            assert(left.key()[1] == 't');
        },
        (_, Language::Other(b)) => {
            assert(right.key()[0] == 'o');
            assert(right.key()[1] == 't');
        },
        _ => {},
    }
}

/// The keys of two values are the same only where the values are.
pub proof fn law_symbol_keys_are_apart(left: SymbolKind, right: SymbolKind)
    requires
        left.key() == right.key(),
    ensures
        ({
            ||| left is Function && right is Function
            ||| left is Method && right is Method
            ||| left is Struct && right is Struct
            ||| left is Class && right is Class
            ||| left is Enum && right is Enum
            ||| left is Interface && right is Interface
            ||| left is Trait && right is Trait
            ||| left is Module && right is Module
            ||| left is Namespace && right is Namespace
            ||| left is Constant && right is Constant
            ||| left is Static && right is Static
            ||| left is Variable && right is Variable
            ||| left is Field && right is Field
            ||| left is Parameter && right is Parameter
            ||| left is TypeAlias && right is TypeAlias
            ||| left is Macro && right is Macro
            ||| left matches SymbolKind::Other(a) && right matches SymbolKind::Other(b) && a@ == b@
        }),
{
    reveal_strlit("function");
    reveal_strlit("method");
    reveal_strlit("struct");
    reveal_strlit("class");
    reveal_strlit("enum");
    reveal_strlit("interface");
    reveal_strlit("trait");
    reveal_strlit("module");
    reveal_strlit("namespace");
    reveal_strlit("constant");
    reveal_strlit("static");
    reveal_strlit("variable");
    reveal_strlit("field");
    reveal_strlit("parameter");
    reveal_strlit("type_alias");
    reveal_strlit("macro");
    reveal_strlit("other:");
    assert("function"@.len() == 8 && "function"@[0] == 'f' && "function"@[1] == 'u' && "function"@[2] == 'n');
    assert("method"@.len() == 6 && "method"@[0] == 'm' && "method"@[1] == 'e' && "method"@[2] == 't');
    assert("struct"@.len() == 6 && "struct"@[0] == 's' && "struct"@[1] == 't' && "struct"@[2] == 'r');
    assert("class"@.len() == 5 && "class"@[0] == 'c' && "class"@[1] == 'l' && "class"@[2] == 'a');
    assert("enum"@.len() == 4 && "enum"@[0] == 'e' && "enum"@[1] == 'n' && "enum"@[2] == 'u');
    assert("interface"@.len() == 9 && "interface"@[0] == 'i' && "interface"@[1] == 'n' && "interface"@[2] == 't');
    assert("trait"@.len() == 5 && "trait"@[0] == 't' && "trait"@[1] == 'r' && "trait"@[2] == 'a');
    assert("module"@.len() == 6 && "module"@[0] == 'm' && "module"@[1] == 'o' && "module"@[2] == 'd');
    assert("namespace"@.len() == 9 && "namespace"@[0] == 'n' && "namespace"@[1] == 'a' && "namespace"@[2] == 'm');
    assert("constant"@.len() == 8 && "constant"@[0] == 'c' && "constant"@[1] == 'o' && "constant"@[2] == 'n');
    assert("static"@.len() == 6 && "static"@[0] == 's' && "static"@[1] == 't' && "static"@[2] == 'a');
    assert("variable"@.len() == 8 && "variable"@[0] == 'v' && "variable"@[1] == 'a' && "variable"@[2] == 'r');
    assert("field"@.len() == 5 && "field"@[0] == 'f' && "field"@[1] == 'i' && "field"@[2] == 'e');
    assert("parameter"@.len() == 9 && "parameter"@[0] == 'p' && "parameter"@[1] == 'a' && "parameter"@[2] == 'r');
    assert("type_alias"@.len() == 10 && "type_alias"@[0] == 't' && "type_alias"@[1] == 'y' && "type_alias"@[2] == 'p');
    assert("macro"@.len() == 5 && "macro"@[0] == 'm' && "macro"@[1] == 'a' && "macro"@[2] == 'c');
    assert("other:"@.len() == 6 && "other:"@[0] == 'o' && "other:"@[1] == 't' && "other:"@[2] == 'h');
    match (left, right) {
        (SymbolKind::Other(a), SymbolKind::Other(b)) => {
            if left.key() == right.key() {
                assert(left.key().skip(6) =~= a@);
                assert(right.key().skip(6) =~= b@);
            }
        },
        (SymbolKind::Other(a), _) => {
            assert(left.key()[0] == 'o');
            assert(left.key()[1] == 't');
        },
        (_, SymbolKind::Other(b)) => {
            assert(right.key()[0] == 'o');
            assert(right.key()[1] == 't');
        },
        _ => {},
    }
}

/// The keys of two values are the same only where the values are.
pub proof fn law_reference_keys_are_apart(left: ReferenceKind, right: ReferenceKind)
    requires
        left.key() == right.key(),
    ensures
        ({
            ||| left is Read && right is Read
            ||| left is Write && right is Write
            ||| left is Type && right is Type
            ||| left is Inheritance && right is Inheritance
            ||| left is Implementation && right is Implementation
            ||| left matches ReferenceKind::Other(a) && right matches ReferenceKind::Other(b) && a@ == b@
        }),
{
    reveal_strlit("read");
    reveal_strlit("write");
    reveal_strlit("type");
    reveal_strlit("inheritance");
    reveal_strlit("implementation");
    reveal_strlit("other:");
    assert("read"@.len() == 4 && "read"@[0] == 'r' && "read"@[1] == 'e' && "read"@[2] == 'a');
    assert("write"@.len() == 5 && "write"@[0] == 'w' && "write"@[1] == 'r' && "write"@[2] == 'i');
    assert("type"@.len() == 4 && "type"@[0] == 't' && "type"@[1] == 'y' && "type"@[2] == 'p');
    assert("inheritance"@.len() == 11 && "inheritance"@[0] == 'i' && "inheritance"@[1] == 'n' && "inheritance"@[2] == 'h');
    assert("implementation"@.len() == 14 && "implementation"@[0] == 'i' && "implementation"@[1] == 'm' && "implementation"@[2] == 'p');
    assert("other:"@.len() == 6 && "other:"@[0] == 'o' && "other:"@[1] == 't' && "other:"@[2] == 'h');
    match (left, right) {
        (ReferenceKind::Other(a), ReferenceKind::Other(b)) => {
            if left.key() == right.key() {
                assert(left.key().skip(6) =~= a@);
                assert(right.key().skip(6) =~= b@);
            }
        },
        (ReferenceKind::Other(a), _) => {
            assert(left.key()[0] == 'o');
            assert(left.key()[1] == 't');
        },
        (_, ReferenceKind::Other(b)) => {
            assert(right.key()[0] == 'o');
            assert(right.key()[1] == 't');
        },
        _ => {},
    }
}

/// The keys of two values are the same only where the values are.
pub proof fn law_entry_point_keys_are_apart(left: EntryPointKind, right: EntryPointKind)
    requires
        left.key() == right.key(),
    ensures
        ({
            ||| left is Executable && right is Executable
            ||| left is Library && right is Library
            ||| left is Test && right is Test
            ||| left is Benchmark && right is Benchmark
            ||| left is WebRoute && right is WebRoute
            ||| left is BackgroundTask && right is BackgroundTask
            ||| left matches EntryPointKind::Other(a) && right matches EntryPointKind::Other(b) && a@ == b@
        }),
{
    reveal_strlit("executable");
    reveal_strlit("library");
    reveal_strlit("test");
    reveal_strlit("benchmark");
    reveal_strlit("web_route");
    reveal_strlit("background_task");
    reveal_strlit("other:");
    assert("executable"@.len() == 10 && "executable"@[0] == 'e' && "executable"@[1] == 'x' && "executable"@[2] == 'e');
    assert("library"@.len() == 7 && "library"@[0] == 'l' && "library"@[1] == 'i' && "library"@[2] == 'b');
    assert("test"@.len() == 4 && "test"@[0] == 't' && "test"@[1] == 'e' && "test"@[2] == 's');
    assert("benchmark"@.len() == 9 && "benchmark"@[0] == 'b' && "benchmark"@[1] == 'e' && "benchmark"@[2] == 'n');
    assert("web_route"@.len() == 9 && "web_route"@[0] == 'w' && "web_route"@[1] == 'e' && "web_route"@[2] == 'b');
    assert("background_task"@.len() == 15 && "background_task"@[0] == 'b' && "background_task"@[1] == 'a' && "background_task"@[2] == 'c');
    assert("other:"@.len() == 6 && "other:"@[0] == 'o' && "other:"@[1] == 't' && "other:"@[2] == 'h');
    match (left, right) {
        (EntryPointKind::Other(a), EntryPointKind::Other(b)) => {
            if left.key() == right.key() {
                assert(left.key().skip(6) =~= a@);
                assert(right.key().skip(6) =~= b@);
            }
        },
        (EntryPointKind::Other(a), _) => {
            assert(left.key()[0] == 'o');
            assert(left.key()[1] == 't');
        },
        (_, EntryPointKind::Other(b)) => {
            assert(right.key()[0] == 'o');
            assert(right.key()[1] == 't');
        },
        _ => {},
    }
}

} // verus!
