//! The order and the local IDs of the symbols of a file have no part in its records.
use crate::assembler;
use crate::assembler::RepositorySpec;
use crate::checks;
use crate::layout;
use crate::parser::{ParsedFile, ParsedSymbol, ParsedSymbolId, ParsedTarget};
use crate::sort;
use vstd::prelude::*;

verus! {

/// A local ID, if there is one, under another number.
pub open spec fn optional_renamed(
    id: Option<ParsedSymbolId>,
    rename: spec_fn(ParsedSymbolId) -> ParsedSymbolId,
) -> Option<ParsedSymbolId> {
    match id {
        Some(id) => Some(rename(id)),
        None => None,
    }
}

/// A target under another number.
pub open spec fn target_renamed(
    target: ParsedTarget,
    rename: spec_fn(ParsedSymbolId) -> ParsedSymbolId,
) -> ParsedTarget {
    match target {
        ParsedTarget::Local(id) => ParsedTarget::Local(rename(id)),
        ParsedTarget::Unresolved(name) => ParsedTarget::Unresolved(name),
    }
}

/// The same symbols in other places and with other local IDs.
pub open spec fn symbols_renumbered(
    first: Seq<ParsedSymbol>,
    second: Seq<ParsedSymbol>,
    place: Seq<usize>,
    rename: spec_fn(ParsedSymbolId) -> ParsedSymbolId,
) -> bool {
    &&& first.len() == second.len() == place.len() <= usize::MAX
    &&& place.no_duplicates()
    &&& forall|i: int| 0 <= i < place.len() ==> #[trigger] place[i] < second.len()
    &&& forall|w: usize| w < second.len() ==> #[trigger] place.contains(w)
    &&& forall|a: ParsedSymbolId, b: ParsedSymbolId|
        #[trigger] rename(a) == #[trigger] rename(b) ==> a == b
    &&& forall|i: int|
        0 <= i < first.len() ==> {
            let moved = second[#[trigger] place[i] as int];
            &&& moved.local_id == rename(first[i].local_id)
            &&& moved.name == first[i].name
            &&& moved.qualified_name == first[i].qualified_name
            &&& moved.kind == first[i].kind
            &&& moved.span == first[i].span
            &&& moved.parent_id == optional_renamed(first[i].parent_id, rename)
        }
}

/// The same file, its symbols in other places and with other local IDs.
pub open spec fn renumbered(
    first: ParsedFile,
    second: ParsedFile,
    place: Seq<usize>,
    rename: spec_fn(ParsedSymbolId) -> ParsedSymbolId,
) -> bool {
    &&& first.path == second.path
    &&& first.language == second.language
    &&& first.module == second.module
    &&& first.imports@ == second.imports@
    &&& symbols_renumbered(first.symbols@, second.symbols@, place, rename)
    &&& first.references@.len() == second.references@.len()
    &&& forall|i: int|
        0 <= i < first.references@.len() ==> {
            let (a, b) = (#[trigger] first.references@[i], second.references@[i]);
            &&& b.source_id == optional_renamed(a.source_id, rename)
            &&& b.target == target_renamed(a.target, rename)
            &&& b.kind == a.kind
            &&& b.span == a.span
        }
    &&& first.calls@.len() == second.calls@.len()
    &&& forall|i: int|
        0 <= i < first.calls@.len() ==> {
            let (a, b) = (#[trigger] first.calls@[i], second.calls@[i]);
            &&& b.caller_id == optional_renamed(a.caller_id, rename)
            &&& b.target == target_renamed(a.target, rename)
            &&& b.span == a.span
            &&& b.confidence == a.confidence
        }
    &&& first.entry_points@.len() == second.entry_points@.len()
    &&& forall|i: int|
        0 <= i < first.entry_points@.len() ==> {
            let (a, b) = (#[trigger] first.entry_points@[i], second.entry_points@[i]);
            &&& b.symbol_id == optional_renamed(a.symbol_id, rename)
            &&& b.kind == a.kind
            &&& b.label == a.label
            &&& b.span == a.span
        }
}

/// No two symbols share kind, name and range.
pub open spec fn told_apart(symbols: Seq<ParsedSymbol>) -> bool {
    forall|i: int, j: int|
        0 <= i < j < symbols.len() ==> assembler::canonical_key(#[trigger] symbols[i])
            != assembler::canonical_key(#[trigger] symbols[j]) || assembler::span_text(
            symbols[i].span@,
        ) != assembler::span_text(symbols[j].span@)
}

/// An order of symbols, with the symbols in other places.
pub open spec fn order_moved(order: Seq<usize>, place: Seq<usize>) -> Seq<usize> {
    order.map_values(|v: usize| place[v as int])
}

pub proof fn lemma_order_moved(
    first: Seq<ParsedSymbol>,
    second: Seq<ParsedSymbol>,
    place: Seq<usize>,
    rename: spec_fn(ParsedSymbolId) -> ParsedSymbolId,
    order: Seq<usize>,
)
    requires
        symbols_renumbered(first, second, place, rename),
        told_apart(first),
        sort::lists_in_order(assembler::symbol_ranks(first), order),
    ensures
        sort::lists_in_order(assembler::symbol_ranks(second), order_moved(order, place)),
        assembler::numbering(second) == order_moved(order, place),
{
    let ours = assembler::symbol_ranks(first);
    let theirs = assembler::symbol_ranks(second);
    let moved = order_moved(order, place);
    layout::lemma_listing_distinct(ours, order);
    assert forall|w: usize| w < theirs.len() implies #[trigger] moved.contains(w) by {
        assert(place.contains(w));
        let i = choose|i: int| 0 <= i < place.len() && place[i] == w;
        assert(order.contains(i as usize));
        let k = choose|k: int| 0 <= k < order.len() && order[k] == i as usize;
        assert(moved[k] == w);
    }
    assert forall|i: int, j: int| 0 <= i < j < moved.len() implies sort::goes_first(
        theirs,
        #[trigger] moved[i] as int,
        #[trigger] moved[j] as int,
    ) by {
        let (u, v) = (order[i] as int, order[j] as int);
        assert(sort::goes_first(ours, u, v));
        assert(order[i] != order[j]);
        let (a, b) = (first[u], first[v]);
        let (c, d) = (second[place[u] as int], second[place[v] as int]);
        assert(c.kind == a.kind && d.kind == b.kind);
        if u < v {
            assert(assembler::canonical_key(first[u]) != assembler::canonical_key(first[v])
                || assembler::span_text(first[u].span@) != assembler::span_text(first[v].span@));
        } else {
            assert(assembler::canonical_key(first[v]) != assembler::canonical_key(first[u])
                || assembler::span_text(first[v].span@) != assembler::span_text(first[u].span@));
        }
        crate::text::law_text_order(
            assembler::canonical_key(a),
            assembler::canonical_key(b),
            assembler::canonical_key(a),
        );
        crate::text::law_text_order(
            assembler::span_text(a.span@),
            assembler::span_text(b.span@),
            assembler::span_text(a.span@),
        );
    }
    assembler::lemma_numbering(second, moved);
}

proof fn lemma_sharing_moved(
    first: Seq<ParsedSymbol>,
    second: Seq<ParsedSymbol>,
    place: Seq<usize>,
    rename: spec_fn(ParsedSymbolId) -> ParsedSymbolId,
    order: Seq<usize>,
    i: int,
    count: nat,
)
    requires
        symbols_renumbered(first, second, place, rename),
        sort::lists_in_order(assembler::symbol_ranks(first), order),
        0 <= i < first.len(),
        count <= order.len(),
    ensures
        assembler::sharing(second, order_moved(order, place), place[i] as int, count)
            == assembler::sharing(first, order, i, count),
    decreases count,
{
    if count > 0 {
        lemma_sharing_moved(first, second, place, rename, order, i, (count - 1) as nat);
        let v = order[count - 1] as int;
        assert(order[count - 1] < first.len());
        assert(second[place[v] as int].kind == first[v].kind);
        assert(second[place[i] as int].kind == first[i].kind);
    }
}

/// A symbol in another place and with another local ID has the same identity.
proof fn lemma_identity_moved(
    repository: Seq<char>,
    path: Seq<char>,
    first: Seq<ParsedSymbol>,
    second: Seq<ParsedSymbol>,
    place: Seq<usize>,
    rename: spec_fn(ParsedSymbolId) -> ParsedSymbolId,
    order: Seq<usize>,
    i: int,
)
    requires
        symbols_renumbered(first, second, place, rename),
        told_apart(first),
        sort::lists_in_order(assembler::symbol_ranks(first), order),
        0 <= i < first.len(),
    ensures
        assembler::symbol_identity(
            repository,
            path,
            second,
            order_moved(order, place),
            place[i] as int,
        ) == assembler::symbol_identity(repository, path, first, order, i),
{
    let moved = order_moved(order, place);
    lemma_order_moved(first, second, place, rename, order);
    layout::lemma_listing_distinct(assembler::symbol_ranks(first), order);
    layout::lemma_listing_distinct(assembler::symbol_ranks(second), moved);
    assert(order.contains(i as usize));
    let k = choose|k: int| 0 <= k < order.len() && order[k] == i as usize;
    layout::lemma_rank_of_listed(order, k);
    assert(moved[k] == place[i]);
    layout::lemma_rank_of_listed(moved, k);
    lemma_sharing_moved(first, second, place, rename, order, i, order.len());
    lemma_sharing_moved(first, second, place, rename, order, i, k as nat);
    assert(second[place[i] as int].kind == first[i].kind);
}

/// No local ID occurs twice in a file that can be assembled.
proof fn lemma_local_ids_differ(parsed: ParsedFile, i: int, j: int)
    requires
        assembler::assemblable(parsed),
        parsed.symbols@.len() <= usize::MAX,
        0 <= i < parsed.symbols@.len(),
        0 <= j < parsed.symbols@.len(),
        i != j,
    ensures
        parsed.symbols@[i].local_id != parsed.symbols@[j].local_id,
{
    let symbols = parsed.symbols@;
    let order = assembler::numbering(symbols);
    assert(order.contains(i as usize) && order.contains(j as usize));
    let a = choose|a: int| 0 <= a < order.len() && order[a] == i as usize;
    let b = choose|b: int| 0 <= b < order.len() && order[b] == j as usize;
    if symbols[i].local_id == symbols[j].local_id {
        if a < b {
            assert(symbols[order[a] as int].local_id == symbols[order[b] as int].local_id);
            assert(assembler::repeats_local_id(symbols, order, b));
        } else {
            assert(symbols[order[b] as int].local_id == symbols[order[a] as int].local_id);
            assert(assembler::repeats_local_id(symbols, order, a));
        }
    }
}

/// A local ID leads to the same symbol under its other number.
pub proof fn lemma_local_moved(
    first: ParsedFile,
    second: ParsedFile,
    place: Seq<usize>,
    rename: spec_fn(ParsedSymbolId) -> ParsedSymbolId,
    id: ParsedSymbolId,
)
    requires
        renumbered(first, second, place, rename),
        assembler::assemblable(first),
        assembler::local_index(first.symbols@, id) is Some,
    ensures
        assembler::local_index(second.symbols@, rename(id)) == Some(
            place[assembler::local_index(first.symbols@, id)->0] as int,
        ),
        0 <= assembler::local_index(first.symbols@, id)->0 < place.len(),
{
    let symbols = second.symbols@;
    let wanted = assembler::has_local_id(symbols, rename(id));
    checks::lemma_least_index(
        first.symbols@.len(),
        assembler::has_local_id(first.symbols@, id),
    );
    let i = assembler::local_index(first.symbols@, id)->0;
    assert(symbols[place[i] as int].local_id == rename(first.symbols@[i].local_id));
    assert(wanted(place[i] as int));
    assert forall|w: int| 0 <= w < place[i] implies !(#[trigger] wanted(w)) by {
        assert(place.contains(w as usize));
        let j = choose|j: int| 0 <= j < place.len() && place[j] == w as usize;
        assert(symbols[place[j] as int].local_id == rename(first.symbols@[j].local_id));
        lemma_local_ids_differ(first, i, j);
        if wanted(w) {
            assert(rename(first.symbols@[j].local_id) == rename(id));
        }
    }
    checks::lemma_least_index_is(symbols.len(), wanted, place[i] as int);
}

/// Every local relation of a file that can be assembled leads to a symbol.
pub proof fn lemma_relations_lead_on(parsed: ParsedFile)
    requires
        assembler::assemblable(parsed),
    ensures
        forall|k: int|
            0 <= k < parsed.symbols@.len() ==> assembler::optional_check(
                parsed.symbols@,
                (#[trigger] parsed.symbols@[k]).parent_id,
                "symbol parent"@,
            ) is Ok,
        forall|k: int|
            0 <= k < parsed.references@.len() ==> assembler::reference_check(
                parsed.symbols@,
                #[trigger] parsed.references@[k],
            ) is Ok,
        forall|k: int|
            0 <= k < parsed.calls@.len() ==> assembler::call_check(
                parsed.symbols@,
                #[trigger] parsed.calls@[k],
            ) is Ok,
        forall|k: int|
            0 <= k < parsed.entry_points@.len() ==> assembler::optional_check(
                parsed.symbols@,
                (#[trigger] parsed.entry_points@[k]).symbol_id,
                "entry point symbol"@,
            ) is Ok,
{
    let symbols = parsed.symbols@;
    let parents = assembler::parent_checks(symbols);
    let references = assembler::reference_checks(symbols, parsed.references@);
    let calls = assembler::call_checks(symbols, parsed.calls@);
    let entries = assembler::entry_checks(symbols, parsed.entry_points@);
    checks::lemma_first_error_ok(symbols.len(), parents);
    checks::lemma_first_error_ok(parsed.references@.len(), references);
    checks::lemma_first_error_ok(parsed.calls@.len(), calls);
    checks::lemma_first_error_ok(parsed.entry_points@.len(), entries);
    assert forall|k: int| 0 <= k < symbols.len() implies assembler::optional_check(
        symbols,
        (#[trigger] symbols[k]).parent_id,
        "symbol parent"@,
    ) is Ok by {
        assert(parents(k) is Ok);
    }
    assert forall|k: int| 0 <= k < parsed.references@.len() implies assembler::reference_check(
        symbols,
        #[trigger] parsed.references@[k],
    ) is Ok by {
        assert(references(k) is Ok);
    }
    assert forall|k: int| 0 <= k < parsed.calls@.len() implies assembler::call_check(
        symbols,
        #[trigger] parsed.calls@[k],
    ) is Ok by {
        assert(calls(k) is Ok);
    }
    assert forall|k: int| 0 <= k < parsed.entry_points@.len() implies assembler::optional_check(
        symbols,
        (#[trigger] parsed.entry_points@[k]).symbol_id,
        "entry point symbol"@,
    ) is Ok by {
        assert(entries(k) is Ok);
    }
}

/// What a local ID and a target come to is the same under other numbers.
proof fn lemma_targets_moved(
    repository: RepositorySpec,
    first: ParsedFile,
    second: ParsedFile,
    place: Seq<usize>,
    rename: spec_fn(ParsedSymbolId) -> ParsedSymbolId,
    reason: String,
    id: Option<ParsedSymbolId>,
    target: ParsedTarget,
)
    requires
        renumbered(first, second, place, rename),
        told_apart(first.symbols@),
        assembler::assemblable(first),
    ensures
        (id is Some ==> assembler::local_index(first.symbols@, id->0) is Some)
            ==> assembler::context_of(repository, second, reason).optional(
            optional_renamed(id, rename),
        ) == assembler::context_of(repository, first, reason).optional(id),
        (target is Local ==> assembler::local_index(first.symbols@, target->Local_0) is Some)
            ==> assembler::context_of(repository, second, reason).target(
            target_renamed(target, rename),
        ) == assembler::context_of(repository, first, reason).target(target),
{
    let order = assembler::numbering(first.symbols@);
    let ours = assembler::context_of(repository, first, reason);
    lemma_order_moved(first.symbols@, second.symbols@, place, rename, order);
    if id is Some && assembler::local_index(first.symbols@, id->0) is Some {
        lemma_local_moved(first, second, place, rename, id->0);
        lemma_identity_moved(
            ours.repository,
            ours.path(),
            first.symbols@,
            second.symbols@,
            place,
            rename,
            order,
            assembler::local_index(first.symbols@, id->0)->0,
        );
    }
    if target is Local && assembler::local_index(first.symbols@, target->Local_0) is Some {
        lemma_local_moved(first, second, place, rename, target->Local_0);
        lemma_identity_moved(
            ours.repository,
            ours.path(),
            first.symbols@,
            second.symbols@,
            place,
            rename,
            order,
            assembler::local_index(first.symbols@, target->Local_0)->0,
        );
    }
}

/// The order of the symbols of a file and their local IDs have no part in its
/// records: the same file with its symbols in other places and under other numbers
/// has the same modules, imports, references, calls and entry points, and every
/// symbol has the same record, with the same identity. This holds as long as no two
/// symbols share kind, name and range, which only their local IDs would tell apart.
pub proof fn law_local_numbers_have_no_part(
    repository: RepositorySpec,
    first: ParsedFile,
    second: ParsedFile,
    place: Seq<usize>,
    rename: spec_fn(ParsedSymbolId) -> ParsedSymbolId,
    reason: String,
)
    requires
        renumbered(first, second, place, rename),
        told_apart(first.symbols@),
        assembler::assemblable(first),
    ensures
        ({
            let ours = assembler::context_of(repository, first, reason);
            let theirs = assembler::context_of(repository, second, reason);
            &&& theirs.file() == ours.file()
            &&& theirs.modules() == ours.modules()
            &&& theirs.imports() == ours.imports()
            &&& theirs.references() == ours.references()
            &&& theirs.calls() == ours.calls()
            &&& theirs.entry_points() == ours.entry_points()
            &&& forall|i: int|
                0 <= i < place.len() ==> theirs.symbol(#[trigger] place[i] as int) == ours.symbol(i)
        }),
{
    let ours = assembler::context_of(repository, first, reason);
    let theirs = assembler::context_of(repository, second, reason);
    let order = assembler::numbering(first.symbols@);
    let none = ParsedTarget::Local(ParsedSymbolId(0));
    lemma_order_moved(first.symbols@, second.symbols@, place, rename, order);
    lemma_relations_lead_on(first);
    assert(theirs.imports() =~= ours.imports()) by {
        assert forall|i: int| 0 <= i < first.imports@.len() implies theirs.import(i)
            == ours.import(i) by {}
    }
    assert(theirs.modules() =~= ours.modules());
    assert forall|i: int| 0 <= i < first.references@.len() implies #[trigger] theirs.references()[i]
        == ours.references()[i] by {
        let a = first.references@[i];
        assert(assembler::reference_check(first.symbols@, a) is Ok);
        lemma_targets_moved(
            repository,
            first,
            second,
            place,
            rename,
            reason,
            a.source_id,
            a.target,
        );
    }
    assert(theirs.references() =~= ours.references());
    assert forall|i: int| 0 <= i < first.calls@.len() implies #[trigger] theirs.calls()[i]
        == ours.calls()[i] by {
        let a = first.calls@[i];
        assert(assembler::call_check(first.symbols@, a) is Ok);
        lemma_targets_moved(
            repository,
            first,
            second,
            place,
            rename,
            reason,
            a.caller_id,
            a.target,
        );
    }
    assert(theirs.calls() =~= ours.calls());
    assert forall|i: int| 0 <= i < first.entry_points@.len() implies #[trigger] theirs.entry_points(
    )[i] == ours.entry_points()[i] by {
        let a = first.entry_points@[i];
        lemma_targets_moved(repository, first, second, place, rename, reason, a.symbol_id, none);
    }
    assert(theirs.entry_points() =~= ours.entry_points());
    assert forall|i: int| 0 <= i < place.len() implies theirs.symbol(#[trigger] place[i] as int)
        == ours.symbol(i) by {
        let a = first.symbols@[i];
        lemma_targets_moved(repository, first, second, place, rename, reason, a.parent_id, none);
        lemma_identity_moved(
            ours.repository,
            ours.path(),
            first.symbols@,
            second.symbols@,
            place,
            rename,
            order,
            i,
        );
    }
}

} // verus!
