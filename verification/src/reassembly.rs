//! The outcome of an assembly depends neither on the order of the files, nor on the
//! order of the symbols of a file, nor on their local IDs.
use crate::assembler;
use crate::assembler::{AssemblyError, RepositorySpec};
use crate::canonical;
use crate::checks;
use crate::ir::RepositoryModel;
use crate::parser::{ParsedFile, ParsedSymbolId};
use crate::renumbering;
use crate::sort;
use crate::sort::Ordered;
use crate::text;
use vstd::prelude::*;

verus! {

/// The same file, its symbols in some order and under some local IDs.
pub open spec fn told_anew(first: ParsedFile, second: ParsedFile) -> bool {
    exists|place: Seq<usize>, rename: spec_fn(ParsedSymbolId) -> ParsedSymbolId|
        renumbering::renumbered(first, second, place, rename)
}

/// The same files, the file `i` told anew in the place `to[i]`.
pub open spec fn files_told_anew(
    first: Seq<ParsedFile>,
    second: Seq<ParsedFile>,
    to: Seq<usize>,
) -> bool {
    &&& first.len() == second.len() == to.len() <= usize::MAX
    &&& to.no_duplicates()
    &&& forall|i: int| 0 <= i < to.len() ==> #[trigger] to[i] < second.len()
    &&& forall|w: usize| w < second.len() ==> #[trigger] to.contains(w)
    &&& forall|i: int| 0 <= i < first.len() ==> told_anew(first[i], second[#[trigger] to[i] as int])
}

/// A local relation leads to a symbol under its other number too.
proof fn lemma_check_moved(
    first: ParsedFile,
    second: ParsedFile,
    place: Seq<usize>,
    rename: spec_fn(ParsedSymbolId) -> ParsedSymbolId,
    id: Option<ParsedSymbolId>,
)
    requires
        renumbering::renumbered(first, second, place, rename),
        assembler::assemblable(first),
        id is Some ==> assembler::local_index(first.symbols@, id->0) is Some,
    ensures
        id is Some ==> assembler::local_index(second.symbols@, rename(id->0)) is Some,
{
    if id is Some {
        renumbering::lemma_local_moved(first, second, place, rename, id->0);
    }
}

/// A file told anew can be assembled where the file can.
proof fn lemma_assemblable_anew(
    first: ParsedFile,
    second: ParsedFile,
    place: Seq<usize>,
    rename: spec_fn(ParsedSymbolId) -> ParsedSymbolId,
)
    requires
        renumbering::renumbered(first, second, place, rename),
        renumbering::told_apart(first.symbols@),
        assembler::assemblable(first),
    ensures
        assembler::assemblable(second),
{
    let (ours, theirs) = (first.symbols@, second.symbols@);
    let order = assembler::numbering(ours);
    let moved = renumbering::order_moved(order, place);
    renumbering::lemma_order_moved(ours, theirs, place, rename, order);
    renumbering::lemma_relations_lead_on(first);
    assert forall|k: int| 0 <= k < moved.len() implies !#[trigger] assembler::repeats_local_id(
        theirs,
        moved,
        k,
    ) by {
        assert(!assembler::repeats_local_id(ours, order, k));
        assert(order[k] < ours.len());
        if assembler::repeats_local_id(theirs, moved, k) {
            let j = choose|j: int|
                0 <= j < k && theirs[(#[trigger] moved[j]) as int].local_id
                    == theirs[moved[k] as int].local_id;
            assert(order[j] < ours.len());
            assert(moved[j] == place[order[j] as int] && moved[k] == place[order[k] as int]);
            assert(rename(ours[order[j] as int].local_id) == rename(ours[order[k] as int].local_id));
        }
    }
    let parents = assembler::parent_checks(theirs);
    let references = assembler::reference_checks(theirs, second.references@);
    let calls = assembler::call_checks(theirs, second.calls@);
    let entries = assembler::entry_checks(theirs, second.entry_points@);
    assert forall|k: int| 0 <= k < theirs.len() implies (#[trigger] parents(k)) is Ok by {
        assert(place.contains(k as usize));
        let i = choose|i: int| 0 <= i < place.len() && place[i] == k as usize;
        assert(theirs[place[i] as int].parent_id == renumbering::optional_renamed(
            ours[i].parent_id,
            rename,
        ));
        lemma_check_moved(first, second, place, rename, ours[i].parent_id);
    }
    assert forall|k: int| 0 <= k < second.references@.len() implies (
    #[trigger] references(k)) is Ok by {
        let a = first.references@[k];
        assert(assembler::reference_check(ours, a) is Ok);
        lemma_check_moved(first, second, place, rename, a.source_id);
        if a.target is Local {
            lemma_check_moved(first, second, place, rename, Some(a.target->Local_0));
        }
    }
    assert forall|k: int| 0 <= k < second.calls@.len() implies (#[trigger] calls(k)) is Ok by {
        let a = first.calls@[k];
        assert(assembler::call_check(ours, a) is Ok);
        lemma_check_moved(first, second, place, rename, a.caller_id);
        if a.target is Local {
            lemma_check_moved(first, second, place, rename, Some(a.target->Local_0));
        }
    }
    assert forall|k: int| 0 <= k < second.entry_points@.len() implies (
    #[trigger] entries(k)) is Ok by {
        let a = first.entry_points@[k];
        lemma_check_moved(first, second, place, rename, a.symbol_id);
    }
    checks::lemma_first_error_ok(theirs.len(), parents);
    checks::lemma_first_error_ok(second.references@.len(), references);
    checks::lemma_first_error_ok(second.calls@.len(), calls);
    checks::lemma_first_error_ok(second.entry_points@.len(), entries);
}

/// Files that can be assembled and told anew one by one.
spec fn paired(first: Seq<ParsedFile>, second: Seq<ParsedFile>) -> bool {
    &&& first.len() == second.len()
    &&& forall|k: int|
        0 <= k < first.len() ==> {
            &&& told_anew(#[trigger] first[k], second[k])
            &&& renumbering::told_apart(first[k].symbols@)
            &&& assembler::assemblable(first[k])
        }
}

/// The records of files told anew one by one: the same, the symbols in another
/// order.
proof fn lemma_records_anew(
    repository: RepositorySpec,
    first: Seq<ParsedFile>,
    second: Seq<ParsedFile>,
    reason: String,
)
    requires
        paired(first, second),
    ensures
        assembler::all_files(repository, second, reason) == assembler::all_files(
            repository,
            first,
            reason,
        ),
        assembler::all_modules(repository, second, reason) == assembler::all_modules(
            repository,
            first,
            reason,
        ),
        assembler::all_imports(repository, second, reason) == assembler::all_imports(
            repository,
            first,
            reason,
        ),
        assembler::all_references(repository, second, reason) == assembler::all_references(
            repository,
            first,
            reason,
        ),
        assembler::all_calls(repository, second, reason) == assembler::all_calls(
            repository,
            first,
            reason,
        ),
        assembler::all_entry_points(repository, second, reason) == assembler::all_entry_points(
            repository,
            first,
            reason,
        ),
        assembler::all_symbols(repository, second, reason).to_multiset()
            == assembler::all_symbols(repository, first, reason).to_multiset(),
    decreases first.len(),
{
    if first.len() > 0 {
        let k = first.len() - 1;
        assert(told_anew(first[k], second[k]));
        let (place, rename) = choose|
            place: Seq<usize>,
            rename: spec_fn(ParsedSymbolId) -> ParsedSymbolId,
        |
            renumbering::renumbered(first[k], second[k], place, rename);
        renumbering::law_local_numbers_have_no_part(
            repository,
            first[k],
            second[k],
            place,
            rename,
            reason,
        );
        assert(paired(first.drop_last(), second.drop_last())) by {
            assert forall|i: int| 0 <= i < k implies {
                &&& told_anew(#[trigger] first.drop_last()[i], second.drop_last()[i])
                &&& renumbering::told_apart(first.drop_last()[i].symbols@)
                &&& assembler::assemblable(first.drop_last()[i])
            } by {
                assert(told_anew(first[i], second[i]));
            }
        }
        lemma_records_anew(repository, first.drop_last(), second.drop_last(), reason);
        let ours = assembler::context_of(repository, first[k], reason).symbols();
        let theirs = assembler::context_of(repository, second[k], reason).symbols();
        assert forall|i: int| 0 <= i < place.len() implies #[trigger] canonical::picked(
            theirs,
            place,
        )[i] == ours[i] by {
            assert(place[i] < theirs.len());
        }
        assert(canonical::picked(theirs, place) =~= ours);
        canonical::lemma_picked_multiset(theirs, place);
        vstd::seq_lib::lemma_multiset_commutative(
            assembler::all_symbols(repository, first.drop_last(), reason),
            ours,
        );
        vstd::seq_lib::lemma_multiset_commutative(
            assembler::all_symbols(repository, second.drop_last(), reason),
            theirs,
        );
    }
}

/// No two files have one path.
spec fn paths_differ(files: Seq<ParsedFile>) -> bool {
    forall|i: int, j: int|
        0 <= i < j < files.len() ==> (#[trigger] files[i]).path@ != (#[trigger] files[j]).path@
}

proof fn lemma_paths_differ_kept(first: Seq<ParsedFile>, second: Seq<ParsedFile>)
    requires
        first.to_multiset() == second.to_multiset(),
        paths_differ(first),
    ensures
        paths_differ(second),
{
    canonical::lemma_same_members(first, second);
    assert(first.no_duplicates()) by {
        assert forall|i: int, j: int| 0 <= i < first.len() && 0 <= j < first.len() && i
            != j implies first[i] != first[j] by {
            if i < j {
                assert(first[i].path@ != first[j].path@);
            } else {
                assert(first[j].path@ != first[i].path@);
            }
        }
    }
    first.lemma_multiset_has_no_duplicates();
    second.lemma_multiset_has_no_duplicates_conv();
    assert forall|i: int, j: int| 0 <= i < j < second.len() implies (#[trigger] second[i]).path@
        != (#[trigger] second[j]).path@ by {
        assert(second.contains(second[i]) && second.contains(second[j]));
        let a = choose|a: int| 0 <= a < first.len() && first[a] == second[i];
        let b = choose|b: int| 0 <= b < first.len() && first[b] == second[j];
        assert(second[i] != second[j]);
        if a < b {
            assert(first[a].path@ != first[b].path@);
        } else {
            assert(first[b].path@ != first[a].path@);
        }
    }
}

/// The path of a file.
pub open spec fn path_of() -> spec_fn(ParsedFile) -> Seq<char> {
    |file: ParsedFile| file.path@
}

/// The paths of files, in their order.
pub open spec fn paths_of(files: Seq<ParsedFile>) -> Seq<Seq<char>> {
    files.map_values(path_of())
}

proof fn lemma_paths_ascend(files: Seq<ParsedFile>)
    requires
        sort::sorted(files),
        paths_differ(files),
    ensures
        text::ascending(paths_of(files)),
{
    let paths = paths_of(files);
    assert forall|i: int, j: int| 0 <= i < j < paths.len() implies text::before(
        #[trigger] paths[i],
        #[trigger] paths[j],
    ) by {
        assert(!files[j].precedes(files[i]));
        assert(files[i].path@ != files[j].path@);
        text::law_text_order(files[i].path@, files[j].path@, files[i].path@);
    }
}

/// Files told anew, each list in the order of its paths, are told anew one by one.
proof fn lemma_sorted_anew(first: Seq<ParsedFile>, second: Seq<ParsedFile>, to: Seq<usize>)
    requires
        files_told_anew(first, second, to),
        paths_differ(first),
    ensures
        sort::stable_sorted(first).len() == sort::stable_sorted(second).len(),
        paths_differ(sort::stable_sorted(second)),
        forall|k: int|
            0 <= k < first.len() ==> told_anew(
                #[trigger] sort::stable_sorted(first)[k],
                sort::stable_sorted(second)[k],
            ),
{
    if first.len() == 0 {
        assert(sort::stable_sorted(second) =~= second);
    } else {
        let ours = sort::stable_sorted(first);
        let theirs = sort::stable_sorted(second);
        sort::law_stable_sort(first, first[0]);
        sort::law_stable_sort(second, first[0]);
        canonical::lemma_same_members(first, ours);
        canonical::lemma_same_members(second, theirs);
        assert forall|i: int| 0 <= i < first.len() implies second[#[trigger] to[i] as int].path
            == first[i].path by {
            assert(told_anew(first[i], second[to[i] as int]));
        }
        assert(paths_differ(second)) by {
            assert forall|a: int, b: int| 0 <= a < b < second.len() implies (
            #[trigger] second[a]).path@ != (#[trigger] second[b]).path@ by {
                assert(to.contains(a as usize) && to.contains(b as usize));
                let i = choose|i: int| 0 <= i < to.len() && to[i] == a as usize;
                let j = choose|j: int| 0 <= j < to.len() && to[j] == b as usize;
                assert(second[to[i] as int].path == first[i].path);
                assert(second[to[j] as int].path == first[j].path);
                if i < j {
                    assert(first[i].path@ != first[j].path@);
                } else {
                    assert(first[j].path@ != first[i].path@);
                }
            }
        }
        lemma_paths_differ_kept(first, ours);
        lemma_paths_differ_kept(second, theirs);
        lemma_paths_ascend(ours);
        lemma_paths_ascend(theirs);
        let (left, right) = (paths_of(ours), paths_of(theirs));
        assert forall|path: Seq<char>| left.contains(path) == right.contains(path) by {
            if left.contains(path) {
                let k = choose|k: int| 0 <= k < left.len() && left[k] == path;
                assert(ours.contains(ours[k]));
                let i = choose|i: int| 0 <= i < first.len() && first[i] == ours[k];
                assert(second[to[i] as int].path == first[i].path);
                assert(second.contains(second[to[i] as int]));
                assert(theirs.contains(second[to[i] as int]));
                let m = choose|m: int| 0 <= m < theirs.len() && theirs[m] == second[to[i] as int];
                assert(right[m] == path);
            }
            if right.contains(path) {
                let k = choose|k: int| 0 <= k < right.len() && right[k] == path;
                assert(theirs.contains(theirs[k]));
                let w = choose|w: int| 0 <= w < second.len() && second[w] == theirs[k];
                assert(to.contains(w as usize));
                let i = choose|i: int| 0 <= i < to.len() && to[i] == w as usize;
                assert(second[to[i] as int].path == first[i].path);
                assert(first.contains(first[i]));
                let m = choose|m: int| 0 <= m < ours.len() && ours[m] == first[i];
                assert(left[m] == path);
            }
        }
        text::lemma_ascending_is_unique(left, right);
        assert forall|k: int| 0 <= k < first.len() implies told_anew(
            #[trigger] ours[k],
            theirs[k],
        ) by {
            assert(theirs.contains(theirs[k]));
            let w = choose|w: int| 0 <= w < second.len() && second[w] == theirs[k];
            assert(to.contains(w as usize));
            let i = choose|i: int| 0 <= i < to.len() && to[i] == w as usize;
            assert(told_anew(first[i], second[to[i] as int]));
            assert(second[to[i] as int].path == first[i].path);
            assert(first.contains(first[i]));
            let m = choose|m: int| 0 <= m < ours.len() && ours[m] == first[i];
            assert(left[k] == right[k]);
            assert(ours[m].path@ == ours[k].path@);
            if m < k {
                assert(ours[m].path@ != ours[k].path@);
            } else if k < m {
                assert(ours[k].path@ != ours[m].path@);
            }
        }
    }
}

/// A model depends neither on the order in which the files are handed over, nor on
/// the order of the symbols of a file, nor on their local IDs: where a model is
/// assembled from files, the same files in another order, their symbols in other
/// places and under other local IDs, are assembled into that model, identities
/// included, and are not refused. This holds as long as no two symbols of a file
/// share kind, name and range, which only their local IDs would tell apart, and no
/// two records of symbols share an identity, which is a digest.
pub proof fn law_model_ignores_order_and_local_numbers(
    repository: RepositorySpec,
    first: Seq<ParsedFile>,
    second: Seq<ParsedFile>,
    to: Seq<usize>,
    model: RepositoryModel,
    error: AssemblyError,
)
    requires
        files_told_anew(first, second, to),
        forall|i: int|
            0 <= i < first.len() ==> renumbering::told_apart((#[trigger] first[i]).symbols@),
        assembler::assembled_from(repository, sort::stable_sorted(first), model),
        sort::told_apart(model.symbols@),
    ensures
        assembler::assembled_from(repository, sort::stable_sorted(second), model),
        !assembler::assembly_refused(sort::stable_sorted(second), error),
{
    let ours = sort::stable_sorted(first);
    let theirs = sort::stable_sorted(second);
    if first.len() == 0 {
        assert(second =~= first);
    } else {
        sort::law_stable_sort(first, first[0]);
        canonical::lemma_same_members(first, ours);
        assert(paths_differ(ours)) by {
            assert forall|i: int, j: int| 0 <= i < j < ours.len() implies (
            #[trigger] ours[i]).path@ != (#[trigger] ours[j]).path@ by {
                assert(assembler::addable(ours, j));
            }
        }
        lemma_paths_differ_kept(ours, first);
        lemma_sorted_anew(first, second, to);
        assert(paired(ours, theirs)) by {
            assert forall|k: int| 0 <= k < ours.len() implies {
                &&& told_anew(#[trigger] ours[k], theirs[k])
                &&& renumbering::told_apart(ours[k].symbols@)
                &&& assembler::assemblable(ours[k])
            } by {
                assert(ours.contains(ours[k]));
                let i = choose|i: int| 0 <= i < first.len() && first[i] == ours[k];
                assert(renumbering::told_apart(first[i].symbols@));
                assert(assembler::addable(ours, k));
            }
        }
        assert forall|k: int| 0 <= k < theirs.len() implies #[trigger] assembler::addable(
            theirs,
            k,
        ) by {
            assert(told_anew(ours[k], theirs[k]));
            let (place, rename) = choose|
                place: Seq<usize>,
                rename: spec_fn(ParsedSymbolId) -> ParsedSymbolId,
            |
                renumbering::renumbered(ours[k], theirs[k], place, rename);
            lemma_assemblable_anew(ours[k], theirs[k], place, rename);
            if assembler::repeats_path(theirs, k) {
                let j = choose|j: int|
                    0 <= j < k && (#[trigger] theirs[j]).path@ == theirs[k].path@;
                assert(theirs[j].path@ != theirs[k].path@);
            }
        }
        let reason = choose|reason: String|
            reason@ == assembler::unresolved_reason() && #[trigger] assembler::assembles(
                repository,
                ours,
                reason,
                model,
            );
        lemma_records_anew(repository, ours, theirs, reason);
        let before = assembler::all_symbols(repository, ours, reason);
        let after = assembler::all_symbols(repository, theirs, reason);
        if before.len() > 0 {
            sort::law_stable_sort(before, before[0]);
            canonical::lemma_same_members(before, model.symbols@);
            assert(sort::told_apart(before)) by {
                assert forall|i: int, j: int|
                    0 <= i < before.len() && 0 <= j < before.len() && before[i]
                        != before[j] implies (#[trigger] before[i]).precedes(#[trigger] before[j])
                    || before[j].precedes(before[i]) by {
                    assert(before.contains(before[i]) && before.contains(before[j]));
                    let a = choose|a: int|
                        0 <= a < model.symbols@.len() && model.symbols@[a] == before[i];
                    let b = choose|b: int|
                        0 <= b < model.symbols@.len() && model.symbols@[b] == before[j];
                    assert(model.symbols@[a].precedes(model.symbols@[b])
                        || model.symbols@[b].precedes(model.symbols@[a]));
                }
            }
        }
        sort::law_sorting_forgets_order(before, after);
        assert(assembler::assembles(repository, theirs, reason, model));
    }
}

/// A path on account of which files cannot be assembled: one that more than one of
/// them has, or one whose file repeats a local ID or has a dangling one.
pub open spec fn stands_in_the_way(files: Seq<ParsedFile>, path: Seq<char>) -> bool {
    ||| paths_of(files).to_multiset().count(path) > 1
    ||| exists|i: int|
        0 <= i < files.len() && (#[trigger] files[i]).path@ == path && !assembler::assemblable(
            files[i],
        )
}

proof fn lemma_twice(s: Seq<Seq<char>>, x: Seq<char>) -> (at: (int, int))
    requires
        s.to_multiset().count(x) > 1,
    ensures
        0 <= at.0 < at.1 < s.len(),
        s[at.0] == x,
        s[at.1] == x,
    decreases s.len(),
{
    broadcast use vstd::seq_lib::group_to_multiset_ensures;

    if s.len() == 0 {
        assert(s.to_multiset().len() == 0);
        (0, 0)
    } else {
        let rest = s.drop_last();
        assert(s =~= rest.push(s.last()));
        if s.last() == x {
            assert(rest.to_multiset().count(x) > 0);
            assert(rest.contains(x));
            let i = choose|i: int| 0 <= i < rest.len() && rest[i] == x;
            (i, s.len() - 1)
        } else {
            lemma_twice(rest, x)
        }
    }
}

proof fn lemma_counted_twice(s: Seq<Seq<char>>, i: int, j: int)
    requires
        0 <= i < j < s.len(),
        s[i] == s[j],
    ensures
        s.to_multiset().count(s[i]) > 1,
    decreases s.len(),
{
    broadcast use vstd::seq_lib::group_to_multiset_ensures;

    let rest = s.drop_last();
    assert(s =~= rest.push(s.last()));
    if j == s.len() - 1 {
        assert(rest[i] == s[i]);
        assert(rest.contains(s[i]));
        assert(rest.to_multiset().count(s[i]) > 0);
    } else {
        lemma_counted_twice(rest, i, j);
    }
}

/// The error of an assembly that is refused is about the least of the paths that
/// stand in its way, whatever the order of the files.
pub proof fn law_least_path_is_reported(files: Seq<ParsedFile>, error: AssemblyError)
    requires
        assembler::assembly_refused(sort::stable_sorted(files), error),
    ensures
        stands_in_the_way(files, error.concerns()@),
        forall|path: Seq<char>|
            #[trigger] stands_in_the_way(files, path) ==> !text::before(path, error.concerns()@),
{
    let sorted = sort::stable_sorted(files);
    let k = choose|k: int|
        {
            &&& 0 <= k < sorted.len()
            &&& !#[trigger] assembler::addable(sorted, k)
            &&& forall|m: int| 0 <= m < k ==> #[trigger] assembler::addable(sorted, m)
            &&& if assembler::repeats_path(sorted, k) {
                error matches AssemblyError::DuplicateFile { path } && path == sorted[k].path
            } else {
                assembler::file_refused(sorted[k], error)
            }
        };
    sort::law_stable_sort(files, sorted[k]);
    canonical::lemma_same_members(files, sorted);
    canonical::lemma_mapped_multiset(files, sorted, path_of());
    assert(error.concerns()@ == sorted[k].path@);
    if assembler::repeats_path(sorted, k) {
        let j = choose|j: int| 0 <= j < k && (#[trigger] sorted[j]).path@ == sorted[k].path@;
        lemma_counted_twice(paths_of(sorted), j, k);
    } else {
        assert(sorted.contains(sorted[k]));
        let i = choose|i: int| 0 <= i < files.len() && files[i] == sorted[k];
        assert(files[i].path@ == sorted[k].path@);
    }
    assert forall|path: Seq<char>| #[trigger] stands_in_the_way(files, path) implies !text::before(
        path,
        error.concerns()@,
    ) by {
        let m = if paths_of(files).to_multiset().count(path) > 1 {
            let at = lemma_twice(paths_of(sorted), path);
            assert(sorted[at.0].path@ == sorted[at.1].path@);
            assert(assembler::repeats_path(sorted, at.1));
            at.1
        } else {
            let i = choose|i: int|
                0 <= i < files.len() && (#[trigger] files[i]).path@ == path
                    && !assembler::assemblable(files[i]);
            assert(files.contains(files[i]));
            choose|m: int| 0 <= m < sorted.len() && sorted[m] == files[i]
        };
        assert(sorted[m].path@ == path);
        assert(!assembler::addable(sorted, m));
        assert(m >= k);
        if m == k {
            text::law_text_order(path, path, path);
        } else {
            assert(!sorted[m].precedes(sorted[k]));
        }
    }
}

} // verus!
