//! Files whose records fit together: symbols are numbered in order, and every local
//! relation leads to one of them. Both parsers make only such files, and such files
//! are never refused when a repository is assembled.
use crate::assembler;
use crate::assembler::AssemblyError;
use crate::checks;
use crate::lang_python;
use crate::lang_python::{ActiveScope, Defined, Records};
use crate::lang_rust;
use crate::lang_rust::{Found, Given};
use crate::parser::{
    CallShown, EntryShown, FileShown, ParsedFile, ParsedSymbolId, ParsedTarget, ReferenceShown,
    SymbolShown, TargetShown,
};
use crate::path::RepositoryPath;
use crate::sort;
use crate::syntax;
use crate::syntax::NodeShown;
use vstd::prelude::*;

verus! {

/// Whether a local ID, if there is one, is among the first `count`.
pub open spec fn bounded(id: Option<ParsedSymbolId>, count: nat) -> bool {
    match id {
        Some(id) => id.0 < count,
        None => true,
    }
}

/// Whether a target, if it is local, is among the first `count` symbols.
pub open spec fn leads_inside(target: TargetShown, count: nat) -> bool {
    match target {
        TargetShown::Local(id) => id.0 < count,
        TargetShown::Unresolved(_) => true,
    }
}

/// Whether symbols are numbered in order, with parents among them.
pub open spec fn numbered(symbols: Seq<SymbolShown>) -> bool {
    forall|i: int|
        0 <= i < symbols.len() ==> (#[trigger] symbols[i]).local_id.0 == i && bounded(
            symbols[i].parent_id,
            symbols.len(),
        )
}

pub open spec fn references_lead_inside(references: Seq<ReferenceShown>, count: nat) -> bool {
    forall|i: int|
        0 <= i < references.len() ==> bounded((#[trigger] references[i]).source_id, count)
            && leads_inside(references[i].target, count)
}

pub open spec fn calls_lead_inside(calls: Seq<CallShown>, count: nat) -> bool {
    forall|i: int|
        0 <= i < calls.len() ==> bounded((#[trigger] calls[i]).caller_id, count) && leads_inside(
            calls[i].target,
            count,
        )
}

pub open spec fn entries_lead_inside(entries: Seq<EntryShown>, count: nat) -> bool {
    forall|i: int| 0 <= i < entries.len() ==> bounded((#[trigger] entries[i]).symbol_id, count)
}

/// Whether the records of a file fit together.
pub open spec fn coherent(file: FileShown) -> bool {
    &&& numbered(file.symbols)
    &&& references_lead_inside(file.references, file.symbols.len())
    &&& calls_lead_inside(file.calls, file.symbols.len())
    &&& entries_lead_inside(file.entry_points, file.symbols.len())
}

/// Whether what was found of a Rust file fits together.
pub open spec fn found_fits(found: Found) -> bool {
    &&& numbered(found.symbols)
    &&& references_lead_inside(found.references, found.symbols.len())
    &&& calls_lead_inside(found.calls, found.symbols.len())
    &&& entries_lead_inside(found.entry_points, found.symbols.len())
}

proof fn lemma_use_fits(
    given: Given,
    at: int,
    stop: int,
    enclosing: Option<ParsedSymbolId>,
    is_name: bool,
    found: Found,
)
    requires
        found_fits(found),
        bounded(enclosing, found.symbols.len()),
    ensures
        found.with_use(given, at, stop, enclosing, is_name) matches Ok(used) ==> found_fits(used)
            && used.symbols == found.symbols,
{
}

proof fn lemma_definition_fits(
    given: Given,
    at: int,
    definition: lang_rust::Definition,
    enclosing: Option<ParsedSymbolId>,
    attributes: Seq<Seq<char>>,
    found: Found,
)
    requires
        found_fits(found),
        bounded(enclosing, found.symbols.len()),
    ensures
        found.with_definition(given, at, definition, enclosing, attributes) matches Ok(defined)
            ==> found_fits(defined) && defined.symbols.len() == found.symbols.len() + 1
            && found.symbols.len() <= u32::MAX,
{
}

proof fn lemma_visit_fits(
    given: Given,
    at: int,
    stop: int,
    enclosing: Option<ParsedSymbolId>,
    attributes: Seq<Seq<char>>,
    in_impl: bool,
    is_name: bool,
    found: Found,
)
    requires
        found_fits(found),
        bounded(enclosing, found.symbols.len()),
    ensures
        lang_rust::visited(
            given,
            at,
            stop,
            enclosing,
            attributes,
            in_impl,
            is_name,
            found,
        ) matches Ok(seen) ==> found_fits(seen) && seen.symbols.len() >= found.symbols.len(),
    decreases stop - at, 0int,
{
    let node = given.nodes[at];
    if at >= stop || node.kind == "attribute_item"@ || node.kind == "use_declaration"@ {
    } else {
        match lang_rust::definition_of(given, at, stop, in_impl) {
            Err(_) => {},
            Ok(None) => {
                lemma_use_fits(given, at, stop, enclosing, is_name, found);
                match found.with_use(given, at, stop, enclosing, is_name) {
                    Err(_) => {},
                    Ok(used) => {
                        lemma_below_fits(
                            given,
                            at + 1,
                            stop,
                            enclosing,
                            Seq::empty(),
                            lang_rust::impl_below(node.kind, in_impl),
                            None,
                            used,
                        );
                    },
                }
            },
            Ok(Some(definition)) => {
                lemma_definition_fits(given, at, definition, enclosing, attributes, found);
                match found.with_definition(given, at, definition, enclosing, attributes) {
                    Err(_) => {},
                    Ok(defined) => {
                        let inner = Some(ParsedSymbolId(found.symbols.len() as u32));
                        lemma_use_fits(given, at, stop, inner, is_name, defined);
                        match defined.with_use(given, at, stop, inner, is_name) {
                            Err(_) => {},
                            Ok(used) => {
                                lemma_below_fits(
                                    given,
                                    at + 1,
                                    stop,
                                    inner,
                                    Seq::empty(),
                                    lang_rust::impl_below(node.kind, in_impl),
                                    definition.name_node,
                                    used,
                                );
                            },
                        }
                    },
                }
            },
        }
    }
}

proof fn lemma_below_fits(
    given: Given,
    at: int,
    stop: int,
    enclosing: Option<ParsedSymbolId>,
    pending: Seq<Seq<char>>,
    in_impl: bool,
    name: Option<int>,
    found: Found,
)
    requires
        found_fits(found),
        bounded(enclosing, found.symbols.len()),
    ensures
        lang_rust::visited_children(
            given,
            at,
            stop,
            enclosing,
            pending,
            in_impl,
            name,
            found,
        ) matches Ok(seen) ==> found_fits(seen) && seen.symbols.len() >= found.symbols.len(),
    decreases stop - at, 1int,
{
    if at < stop {
        let node = given.nodes[at];
        let next = syntax::after(given.nodes, at, stop);
        if !node.named || node.kind == "line_comment"@ || node.kind == "block_comment"@ {
            lemma_below_fits(given, next, stop, enclosing, pending, in_impl, name, found);
        } else if node.kind == "attribute_item"@ {
            match lang_rust::text_of(node, given.source) {
                Err(_) => {},
                Ok(attribute) => {
                    lemma_below_fits(
                        given,
                        next,
                        stop,
                        enclosing,
                        pending.push(attribute),
                        in_impl,
                        name,
                        found,
                    );
                },
            }
        } else {
            lemma_visit_fits(given, at, next, enclosing, pending, in_impl, name == Some(at), found);
            match lang_rust::visited(
                given,
                at,
                next,
                enclosing,
                pending,
                in_impl,
                name == Some(at),
                found,
            ) {
                Err(_) => {},
                Ok(seen) => {
                    lemma_below_fits(
                        given,
                        next,
                        stop,
                        enclosing,
                        Seq::empty(),
                        in_impl,
                        name,
                        seen,
                    );
                },
            }
        }
    }
}

proof fn lemma_candidates_inside(
    symbols: Seq<SymbolShown>,
    count: nat,
    name: Seq<char>,
    callable_only: bool,
)
    requires
        forall|i: int| 0 <= i < symbols.len() ==> (#[trigger] symbols[i]).local_id.0 < count,
    ensures
        forall|i: int|
            0 <= i < lang_rust::candidates(symbols, name, callable_only).len()
                ==> (#[trigger] lang_rust::candidates(symbols, name, callable_only)[i]).0 < count,
    decreases symbols.len(),
{
    if symbols.len() > 0 {
        lemma_candidates_inside(symbols.drop_last(), count, name, callable_only);
        let rest = lang_rust::candidates(symbols.drop_last(), name, callable_only);
        let all = lang_rust::candidates(symbols, name, callable_only);
        assert forall|i: int| 0 <= i < all.len() implies (#[trigger] all[i]).0 < count by {
            if i < rest.len() {
                assert(all[i] == rest[i]);
            } else {
                assert(all[i] == symbols.last().local_id);
            }
        }
    }
}

proof fn lemma_resolved_inside(target: TargetShown, symbols: Seq<SymbolShown>, callable_only: bool)
    requires
        numbered(symbols),
        leads_inside(target, symbols.len()),
    ensures
        leads_inside(lang_rust::resolved(target, symbols, callable_only), symbols.len()),
{
    match target {
        TargetShown::Local(_) => {},
        TargetShown::Unresolved(name) => {
            lemma_candidates_inside(symbols, symbols.len(), name, callable_only);
        },
    }
}

/// The records of a Rust file fit together.
pub proof fn law_rust_files_are_coherent(
    path: RepositoryPath,
    source: Seq<char>,
    nodes: Seq<NodeShown>,
)
    ensures
        lang_rust::extracted(path, source, nodes) matches Ok(file) ==> coherent(file),
{
    match lang_rust::module_of(path@, nodes[0]) {
        Err(_) => {},
        Ok(module) => {
            let given = Given { nodes, source, module: module.qualified_name };
            let start = Found {
                symbols: Seq::empty(),
                imports: Seq::empty(),
                references: Seq::empty(),
                calls: Seq::empty(),
                entry_points: lang_rust::library_entries(path@, module.span->0),
                context: Seq::empty(),
            };
            lemma_visit_fits(
                given,
                0,
                nodes.len() as int,
                None,
                Seq::empty(),
                false,
                false,
                start,
            );
            match lang_rust::visited(
                given,
                0,
                nodes.len() as int,
                None,
                Seq::empty(),
                false,
                false,
                start,
            ) {
                Err(_) => {},
                Ok(found) => {
                    let count = found.symbols.len();
                    assert forall|i: int|
                        0 <= i < lang_rust::resolved_references(found).len() implies bounded(
                        (#[trigger] lang_rust::resolved_references(found)[i]).source_id,
                        count,
                    ) && leads_inside(lang_rust::resolved_references(found)[i].target, count) by {
                        assert(bounded(found.references[i].source_id, count));
                        lemma_resolved_inside(found.references[i].target, found.symbols, false);
                    }
                    assert forall|i: int|
                        0 <= i < lang_rust::resolved_calls(found).len() implies bounded(
                        (#[trigger] lang_rust::resolved_calls(found)[i]).caller_id,
                        count,
                    ) && leads_inside(lang_rust::resolved_calls(found)[i].target, count) by {
                        assert(bounded(found.calls[i].caller_id, count));
                        lemma_resolved_inside(found.calls[i].target, found.symbols, true);
                    }
                },
            }
        },
    }
}

/// Whether all scopes are those of the first `count` symbols.
pub open spec fn scopes_inside(scopes: Seq<ActiveScope>, count: nat) -> bool {
    forall|i: int| 0 <= i < scopes.len() ==> (#[trigger] scopes[i]).id.0 < count
}

/// Whether what a Python file defines fits together.
pub open spec fn defined_fits(defined: Defined) -> bool {
    &&& numbered(defined.symbols)
    &&& forall|at: usize| #[trigger]
        defined.scopes.contains_key(at) ==> defined.scopes[at].id.0 < defined.symbols.len()
}

proof fn lemma_node_fits(
    given: lang_python::Given,
    at: int,
    stop: int,
    scopes: Seq<ActiveScope>,
    defined: Defined,
)
    requires
        defined_fits(defined),
        scopes_inside(scopes, defined.symbols.len()),
    ensures
        defined.with_node(given, at, stop, scopes) matches Ok(next) ==> defined_fits(next.defined)
            && next.defined.symbols.len() >= defined.symbols.len() && (
        next.scope is Some ==> next.scope->0.id.0 < next.defined.symbols.len()),
{
    assert(bounded(lang_python::innermost(scopes), defined.symbols.len()));
}

proof fn lemma_defined_fits(
    given: lang_python::Given,
    at: int,
    stop: int,
    scopes: Seq<ActiveScope>,
    defined: Defined,
)
    requires
        defined_fits(defined),
        scopes_inside(scopes, defined.symbols.len()),
    ensures
        lang_python::defined_by(given, at, stop, scopes, defined) matches Ok(seen) ==> defined_fits(
            seen,
        ) && seen.symbols.len() >= defined.symbols.len(),
    decreases stop - at, 0int,
{
    if at < stop {
        lemma_node_fits(given, at, stop, scopes, defined);
        match defined.with_node(given, at, stop, scopes) {
            Err(_) => {},
            Ok(next) => {
                let inside = lang_python::opened(scopes, next.scope);
                assert(scopes_inside(inside, next.defined.symbols.len()));
                lemma_defined_below_fits(given, at + 1, stop, inside, next.defined);
            },
        }
    }
}

proof fn lemma_defined_below_fits(
    given: lang_python::Given,
    at: int,
    stop: int,
    scopes: Seq<ActiveScope>,
    defined: Defined,
)
    requires
        defined_fits(defined),
        scopes_inside(scopes, defined.symbols.len()),
    ensures
        lang_python::defined_below(given, at, stop, scopes, defined) matches Ok(seen)
            ==> defined_fits(seen) && seen.symbols.len() >= defined.symbols.len(),
    decreases stop - at, 1int,
{
    if at < stop {
        let next = given.end(at, stop);
        if !given.nodes[at].named {
            lemma_defined_below_fits(given, next, stop, scopes, defined);
        } else {
            lemma_defined_fits(given, at, next, scopes, defined);
            match lang_python::defined_by(given, at, next, scopes, defined) {
                Err(_) => {},
                Ok(seen) => {
                    lemma_defined_below_fits(given, next, stop, scopes, seen);
                },
            }
        }
    }
}

/// Whether what is recorded of a Python file leads to the first `count` symbols.
pub open spec fn records_fit(records: Records, count: nat) -> bool {
    &&& references_lead_inside(records.references, count)
    &&& calls_lead_inside(records.calls, count)
    &&& entries_lead_inside(records.entry_points, count)
}

proof fn lemma_last_symbol_inside(
    symbols: Seq<SymbolShown>,
    count: nat,
    name: Seq<char>,
    parent_id: Option<ParsedSymbolId>,
    callable_only: bool,
)
    requires
        forall|i: int| 0 <= i < symbols.len() ==> (#[trigger] symbols[i]).local_id.0 < count,
    ensures
        bounded(lang_python::last_symbol(symbols, name, parent_id, callable_only), count),
    decreases symbols.len(),
{
    if symbols.len() > 0 {
        lemma_last_symbol_inside(symbols.drop_last(), count, name, parent_id, callable_only);
    }
}

proof fn lemma_meaning_inside(
    symbols: Seq<SymbolShown>,
    name: Seq<char>,
    scopes: Seq<ActiveScope>,
    crossed: bool,
    callable_only: bool,
)
    requires
        numbered(symbols),
    ensures
        bounded(
            lang_python::resolved(symbols, name, scopes, crossed, callable_only),
            symbols.len(),
        ),
    decreases scopes.len(),
{
    let count = symbols.len();
    if scopes.len() == 0 {
        lemma_last_symbol_inside(symbols, count, name, None, callable_only);
    } else {
        let scope = scopes.last();
        lemma_last_symbol_inside(symbols, count, name, Some(scope.id), callable_only);
        lemma_meaning_inside(
            symbols,
            name,
            scopes.drop_last(),
            crossed || !scope.is_class,
            callable_only,
        );
    }
}

proof fn lemma_target_inside(
    given: lang_python::Given,
    at: int,
    stop: int,
    symbols: Seq<SymbolShown>,
    scopes: Seq<ActiveScope>,
    callable_only: bool,
)
    requires
        numbered(symbols),
    ensures
        lang_python::target_of(given, at, stop, symbols, scopes, callable_only) matches Ok(target)
            ==> leads_inside(target, symbols.len()),
{
    match lang_python::reference_name(given, at, stop) {
        Err(_) => {},
        Ok(name) => {
            lemma_meaning_inside(symbols, name, scopes, false, callable_only);
        },
    }
}

proof fn lemma_items_fit(
    records: Records,
    given: lang_python::Given,
    at: int,
    stop: int,
    module: Option<Seq<char>>,
    count: nat,
)
    requires
        records_fit(records, count),
    ensures
        records.with_items(given, at, stop, module) matches Ok(next) ==> records_fit(next, count),
    decreases stop - at,
{
    if at < stop {
        let next = given.end(at, stop);
        if !syntax::has_field(given.nodes[at], "name"@) {
            lemma_items_fit(records, given, next, stop, module, count);
        } else {
            match records.with_item(given, at, next, module) {
                Err(_) => {},
                Ok(seen) => {
                    lemma_items_fit(seen, given, next, stop, module, count);
                },
            }
        }
    }
}

proof fn lemma_wildcard_fits(
    records: Records,
    given: lang_python::Given,
    at: int,
    stop: int,
    module: Seq<char>,
    count: nat,
)
    requires
        records_fit(records, count),
    ensures
        records.with_wildcard(given, at, stop, module) matches Ok(next) ==> records_fit(
            next,
            count,
        ),
    decreases stop - at,
{
    if at < stop && !(given.is(at, "*"@) || given.is(at, "wildcard_import"@)) {
        lemma_wildcard_fits(records, given, given.end(at, stop), stop, module, count);
    }
}

proof fn lemma_bases_fit(
    records: Records,
    given: lang_python::Given,
    at: int,
    stop: int,
    symbols: Seq<SymbolShown>,
    scopes: Seq<ActiveScope>,
)
    requires
        records_fit(records, symbols.len()),
        numbered(symbols),
        scopes_inside(scopes, symbols.len()),
    ensures
        records.with_bases(given, at, stop, symbols, scopes) matches Ok(next) ==> records_fit(
            next,
            symbols.len(),
        ),
    decreases stop - at,
{
    if at < stop {
        let next = given.end(at, stop);
        if !given.nodes[at].named || given.is(at, "keyword_argument"@) {
            lemma_bases_fit(records, given, next, stop, symbols, scopes);
        } else {
            let base = lang_python::base_node(given, at, next);
            lemma_target_inside(given, base.0, base.1, symbols, scopes, false);
            match records.with_reference(
                given,
                base.0,
                base.1,
                symbols,
                scopes,
                crate::ir::ReferenceKind::Inheritance,
            ) {
                Err(_) => {},
                Ok(seen) => {
                    lemma_bases_fit(seen, given, next, stop, symbols, scopes);
                },
            }
        }
    }
}

proof fn lemma_annotation_fits(
    records: Records,
    given: lang_python::Given,
    at: int,
    stop: int,
    symbols: Seq<SymbolShown>,
    scopes: Seq<ActiveScope>,
)
    requires
        records_fit(records, symbols.len()),
        numbered(symbols),
        scopes_inside(scopes, symbols.len()),
    ensures
        records.with_annotation(given, at, stop, symbols, scopes) matches Ok(next) ==> records_fit(
            next,
            symbols.len(),
        ),
    decreases stop - at, 0int,
{
    if at < stop {
        lemma_target_inside(given, at, stop, symbols, scopes, false);
        lemma_annotations_fit(records, given, at + 1, stop, symbols, scopes);
    }
}

proof fn lemma_annotations_fit(
    records: Records,
    given: lang_python::Given,
    at: int,
    stop: int,
    symbols: Seq<SymbolShown>,
    scopes: Seq<ActiveScope>,
)
    requires
        records_fit(records, symbols.len()),
        numbered(symbols),
        scopes_inside(scopes, symbols.len()),
    ensures
        records.with_annotations(given, at, stop, symbols, scopes) matches Ok(next) ==> records_fit(
            next,
            symbols.len(),
        ),
    decreases stop - at, 1int,
{
    if at < stop {
        let next = given.end(at, stop);
        if !given.nodes[at].named {
            lemma_annotations_fit(records, given, next, stop, symbols, scopes);
        } else {
            lemma_annotation_fits(records, given, at, next, symbols, scopes);
            match records.with_annotation(given, at, next, symbols, scopes) {
                Err(_) => {},
                Ok(seen) => {
                    lemma_annotations_fit(seen, given, next, stop, symbols, scopes);
                },
            }
        }
    }
}

proof fn lemma_record_fits(
    records: Records,
    given: lang_python::Given,
    at: int,
    stop: int,
    symbols: Seq<SymbolShown>,
    scopes: Seq<ActiveScope>,
)
    requires
        records_fit(records, symbols.len()),
        numbered(symbols),
        scopes_inside(scopes, symbols.len()),
    ensures
        records.with_node(given, at, stop, symbols, scopes) matches Ok(next) ==> records_fit(
            next,
            symbols.len(),
        ),
{
    let count = symbols.len();
    lemma_items_fit(records, given, at + 1, stop, None, count);
    lemma_items_fit(records, given, at + 1, stop, Some("__future__"@), count);
    match given.field(at, stop, "module_name"@) {
        Some(child) => match given.text(child) {
            Ok(module) => {
                lemma_items_fit(records, given, at + 1, stop, Some(module), count);
                lemma_wildcard_fits(records, given, at + 1, stop, module, count);
            },
            Err(_) => {},
        },
        None => {},
    }
    match given.field(at, stop, "function"@) {
        Some(function) => {
            lemma_target_inside(
                given,
                function,
                given.end(function, stop),
                symbols,
                scopes,
                true,
            );
        },
        None => {},
    }
    match given.field(at, stop, "superclasses"@) {
        Some(arguments) => {
            lemma_bases_fit(
                records,
                given,
                arguments + 1,
                given.end(arguments, stop),
                symbols,
                scopes,
            );
        },
        None => {},
    }
}

proof fn lemma_recorded_fits(
    given: lang_python::Given,
    at: int,
    stop: int,
    defined: Defined,
    scopes: Seq<ActiveScope>,
    records: Records,
)
    requires
        defined_fits(defined),
        scopes_inside(scopes, defined.symbols.len()),
        records_fit(records, defined.symbols.len()),
    ensures
        lang_python::recorded(given, at, stop, defined, scopes, records) matches Ok(seen)
            ==> records_fit(seen, defined.symbols.len()),
    decreases stop - at, 0int,
{
    if at < stop {
        let inside = lang_python::opened(scopes, lang_python::scope_at(defined, at));
        assert(scopes_inside(inside, defined.symbols.len()));
        lemma_record_fits(records, given, at, stop, defined.symbols, inside);
        match records.with_node(given, at, stop, defined.symbols, inside) {
            Err(_) => {},
            Ok(next) => {
                lemma_recorded_below_fits(given, at + 1, stop, defined, inside, next);
            },
        }
    }
}

proof fn lemma_recorded_below_fits(
    given: lang_python::Given,
    at: int,
    stop: int,
    defined: Defined,
    scopes: Seq<ActiveScope>,
    records: Records,
)
    requires
        defined_fits(defined),
        scopes_inside(scopes, defined.symbols.len()),
        records_fit(records, defined.symbols.len()),
    ensures
        lang_python::recorded_below(given, at, stop, defined, scopes, records) matches Ok(seen)
            ==> records_fit(seen, defined.symbols.len()),
    decreases stop - at, 1int,
{
    if at < stop {
        let next = given.end(at, stop);
        let node = given.nodes[at];
        if !node.named {
            lemma_recorded_below_fits(given, next, stop, defined, scopes, records);
        } else {
            lemma_annotation_fits(records, given, at, next, defined.symbols, scopes);
            let annotated = if syntax::has_field(node, "type"@) || syntax::has_field(
                node,
                "return_type"@,
            ) {
                records.with_annotation(given, at, next, defined.symbols, scopes)
            } else {
                Ok(records)
            };
            match annotated {
                Err(_) => {},
                Ok(typed) => {
                    lemma_recorded_fits(given, at, next, defined, scopes, typed);
                    match lang_python::recorded(given, at, next, defined, scopes, typed) {
                        Err(_) => {},
                        Ok(seen) => {
                            lemma_recorded_below_fits(given, next, stop, defined, scopes, seen);
                        },
                    }
                },
            }
        }
    }
}

proof fn lemma_tests_fit(entries: Seq<EntryShown>, defined: Defined, count: nat)
    requires
        defined_fits(defined),
        entries_lead_inside(entries, defined.symbols.len()),
        count <= defined.symbols.len(),
    ensures
        entries_lead_inside(
            lang_python::with_tests(entries, defined, count),
            defined.symbols.len(),
        ),
    decreases count,
{
    if count > 0 {
        lemma_tests_fit(entries, defined, (count - 1) as nat);
        assert(defined.symbols[count - 1].local_id.0 == count - 1);
    }
}

/// The records of a Python file fit together.
pub proof fn law_python_files_are_coherent(
    path: RepositoryPath,
    source: Seq<char>,
    nodes: Seq<NodeShown>,
)
    ensures
        lang_python::extracted(path, source, nodes) matches Ok(file) ==> coherent(file),
{
    match lang_python::module_names(path@) {
        Err(_) => {},
        Ok(names) => {
            let given = lang_python::Given { nodes, source, module: names.1 };
            let nothing = Defined {
                symbols: Seq::empty(),
                scopes: Map::empty(),
                test_cases: Seq::empty(),
            };
            let stop = nodes.len() as int;
            lemma_defined_fits(given, 0, stop, Seq::empty(), nothing);
            match lang_python::defined_by(given, 0, stop, Seq::empty(), nothing) {
                Err(_) => {},
                Ok(defined) => {
                    let count = defined.symbols.len();
                    let start = Records {
                        imports: Seq::empty(),
                        references: Seq::empty(),
                        calls: Seq::empty(),
                        entry_points: Seq::empty(),
                    };
                    lemma_recorded_fits(given, 0, stop, defined, Seq::empty(), start);
                    match lang_python::recorded(given, 0, stop, defined, Seq::empty(), start) {
                        Err(_) => {},
                        Ok(records) => {
                            lemma_tests_fit(records.entry_points, defined, count);
                            let entries = lang_python::with_tests(
                                records.entry_points,
                                defined,
                                count,
                            );
                            sort::lemma_sorted_by_keeps(
                                records.references,
                                lang_python::reference_order(),
                                |item: ReferenceShown|
                                    bounded(item.source_id, count) && leads_inside(
                                        item.target,
                                        count,
                                    ),
                            );
                            sort::lemma_sorted_by_keeps(
                                records.calls,
                                lang_python::call_order(),
                                |item: CallShown|
                                    bounded(item.caller_id, count) && leads_inside(
                                        item.target,
                                        count,
                                    ),
                            );
                            sort::lemma_sorted_by_keeps(
                                entries,
                                lang_python::entry_order(),
                                |item: EntryShown| bounded(item.symbol_id, count),
                            );
                        },
                    }
                },
            }
        },
    }
}

proof fn lemma_local_check(parsed: ParsedFile, id: ParsedSymbolId, relation: Seq<char>)
    requires
        coherent(parsed@),
        id.0 < parsed.symbols@.len(),
    ensures
        assembler::local_check(parsed.symbols@, id, relation) is Ok,
{
    let index = id.0 as int;
    assert(parsed@.symbols[index] == parsed.symbols@[index]@);
    checks::lemma_least_index(
        parsed.symbols@.len(),
        assembler::has_local_id(parsed.symbols@, id),
    );
    assert(assembler::has_local_id(parsed.symbols@, id)(index));
}

/// A file whose records fit together is never refused.
pub proof fn law_coherent_files_are_assembled(parsed: ParsedFile, error: AssemblyError)
    requires
        coherent(parsed@),
    ensures
        !assembler::file_refused(parsed, error),
{
    let symbols = parsed.symbols@;
    assert(parsed@.symbols.len() == symbols.len());
    assert forall|k: int| 0 <= k < symbols.len() implies (#[trigger] assembler::parent_checks(
        symbols,
    )(k)) is Ok by {
        assert(parsed@.symbols[k] == symbols[k]@);
        if symbols[k].parent_id is Some {
            lemma_local_check(parsed, symbols[k].parent_id->0, "symbol parent"@);
        }
    }
    checks::lemma_first_error_ok(symbols.len(), assembler::parent_checks(symbols));
    assert forall|k: int| 0 <= k < parsed.references@.len() implies (
    #[trigger] assembler::reference_checks(symbols, parsed.references@)(k)) is Ok by {
        let reference = parsed.references@[k];
        assert(parsed@.references[k] == reference@);
        if reference.source_id is Some {
            lemma_local_check(parsed, reference.source_id->0, "reference source"@);
        }
        match reference.target {
            ParsedTarget::Local(id) => {
                lemma_local_check(parsed, id, "reference target"@);
            },
            ParsedTarget::Unresolved(_) => {},
        }
    }
    checks::lemma_first_error_ok(
        parsed.references@.len(),
        assembler::reference_checks(symbols, parsed.references@),
    );
    assert forall|k: int| 0 <= k < parsed.calls@.len() implies (#[trigger] assembler::call_checks(
        symbols,
        parsed.calls@,
    )(k)) is Ok by {
        let call = parsed.calls@[k];
        assert(parsed@.calls[k] == call@);
        if call.caller_id is Some {
            lemma_local_check(parsed, call.caller_id->0, "call caller"@);
        }
        match call.target {
            ParsedTarget::Local(id) => {
                lemma_local_check(parsed, id, "call target"@);
            },
            ParsedTarget::Unresolved(_) => {},
        }
    }
    checks::lemma_first_error_ok(
        parsed.calls@.len(),
        assembler::call_checks(symbols, parsed.calls@),
    );
    assert forall|k: int| 0 <= k < parsed.entry_points@.len() implies (
    #[trigger] assembler::entry_checks(symbols, parsed.entry_points@)(k)) is Ok by {
        let entry = parsed.entry_points@[k];
        assert(parsed@.entry_points[k] == entry@);
        if entry.symbol_id is Some {
            lemma_local_check(parsed, entry.symbol_id->0, "entry point symbol"@);
        }
    }
    checks::lemma_first_error_ok(
        parsed.entry_points@.len(),
        assembler::entry_checks(symbols, parsed.entry_points@),
    );
    assert(assembler::relations_outcome(parsed) is Ok);
    assert forall|order: Seq<usize>, k: int|
        #[trigger] sort::lists_in_order(assembler::symbol_ranks(symbols), order) && 0 <= k
            < order.len() implies !#[trigger] assembler::repeats_local_id(symbols, order, k) by {
        lemma_no_repetition(parsed, order, k);
    }
}

proof fn lemma_no_repetition(parsed: ParsedFile, order: Seq<usize>, k: int)
    requires
        coherent(parsed@),
        sort::lists_in_order(assembler::symbol_ranks(parsed.symbols@), order),
        0 <= k < order.len(),
    ensures
        !assembler::repeats_local_id(parsed.symbols@, order, k),
{
    let symbols = parsed.symbols@;
    if assembler::repeats_local_id(symbols, order, k) {
        let j = choose|j: int|
            0 <= j < k && symbols[(#[trigger] order[j]) as int].local_id
                == symbols[order[k] as int].local_id;
        assert(parsed@.symbols[order[j] as int] == symbols[order[j] as int]@);
        assert(parsed@.symbols[order[k] as int] == symbols[order[k] as int]@);
        assert(order[j] == order[k]);
        crate::layout::lemma_listing_distinct(assembler::symbol_ranks(symbols), order);
    }
}

} // verus!
