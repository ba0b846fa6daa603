//! An unchanged repository is answered from the cache as it was the first time.
use crate::diagnostic::{DiagnosticStage, FileDiagnostic};
use crate::digest;
use crate::indexer;
use crate::indexer::{IndexReport, IndexRun};
use crate::ir;
use crate::parser::ParsedFile;
use crate::registry::{RegistryError, Revision};
use crate::scanner;
use crate::scanner::{ScanConfig, ScannedFile};
use crate::sort;
use crate::sort::Ordered;
use crate::store::CachedIndex;
use vstd::prelude::*;

verus! {

/// Diagnostics that are added behind others, all of them of a stage that is cached.
spec fn appended(before: Seq<FileDiagnostic>, after: Seq<FileDiagnostic>) -> bool {
    &&& before.len() <= after.len()
    &&& after.take(before.len() as int) == before
    &&& forall|i: int|
        before.len() <= i < after.len() ==> indexer::cached_stage((#[trigger] after[i]).stage)
}

proof fn lemma_appended_one_more(before: Seq<FileDiagnostic>, after: Seq<FileDiagnostic>)
    requires
        after.len() > 0,
        appended(before, after.drop_last()),
        indexer::cached_stage(after.last().stage),
    ensures
        appended(before, after),
{
    let rest = after.drop_last();
    assert(after.take(before.len() as int) =~= rest.take(before.len() as int));
    assert forall|i: int| before.len() <= i < after.len() implies indexer::cached_stage(
        (#[trigger] after[i]).stage,
    ) by {
        if i < rest.len() {
            assert(indexer::cached_stage(rest[i].stage));
        }
    }
}

proof fn lemma_failures_appended(
    before: Seq<FileDiagnostic>,
    after: Seq<FileDiagnostic>,
    outcomes: Seq<Result<ParsedFile, RegistryError>>,
)
    requires
        indexer::failures_reported(before, after, outcomes),
    ensures
        appended(before, after),
    decreases outcomes.len(),
{
    if outcomes.len() == 0 {
        assert(after.take(before.len() as int) =~= before);
    } else {
        match outcomes.last() {
            Ok(_) => {
                lemma_failures_appended(before, after, outcomes.drop_last());
            },
            Err(_) => {
                lemma_failures_appended(before, after.drop_last(), outcomes.drop_last());
                lemma_appended_one_more(before, after);
            },
        }
    }
}

proof fn lemma_refusals_appended(
    before: Seq<FileDiagnostic>,
    after: Seq<FileDiagnostic>,
    files: Seq<ParsedFile>,
)
    requires
        indexer::refusals_reported(before, after, files),
    ensures
        appended(before, after),
    decreases files.len(),
{
    if files.len() == 0 {
        assert(after.take(before.len() as int) =~= before);
    } else if crate::assembler::assemblable(files.last()) {
        lemma_refusals_appended(before, after, files.drop_last());
    } else {
        lemma_refusals_appended(before, after.drop_last(), files.drop_last());
        lemma_appended_one_more(before, after);
    }
}

/// Diagnostics that tie are of one stage.
proof fn lemma_tied_stage(a: FileDiagnostic, b: FileDiagnostic)
    requires
        !a.precedes(b),
        !b.precedes(a),
    ensures
        a.stage == b.stage,
{
    crate::diagnostic::lemma_path_order(a.path, b.path, a.path);
}

/// Of diagnostics that are not cached, none ties with one that is; and conversely.
proof fn lemma_no_ties(s: Seq<FileDiagnostic>, pivot: FileDiagnostic)
    requires
        forall|i: int|
            0 <= i < s.len() ==> indexer::cached_stage((#[trigger] s[i]).stage)
                != indexer::cached_stage(pivot.stage),
    ensures
        sort::ties(s, pivot) == Seq::<FileDiagnostic>::empty(),
    decreases s.len(),
{
    if s.len() > 0 {
        let last = s[s.len() - 1];
        assert(indexer::cached_stage(last.stage) != indexer::cached_stage(pivot.stage));
        if !(last.precedes(pivot) || pivot.precedes(last)) {
            lemma_tied_stage(last, pivot);
        }
        assert forall|i: int| 0 <= i < s.len() - 1 implies indexer::cached_stage(
            (#[trigger] s.drop_last()[i]).stage,
        ) != indexer::cached_stage(pivot.stage) by {
            assert(s.drop_last()[i] == s[i]);
        }
        lemma_no_ties(s.drop_last(), pivot);
    } else {
        assert(s =~= Seq::empty());
    }
}

proof fn lemma_cached_ties(s: Seq<FileDiagnostic>, pivot: FileDiagnostic)
    ensures
        sort::ties(indexer::cached_diagnostics(s), pivot) == if indexer::cached_stage(pivot.stage) {
            sort::ties(s, pivot)
        } else {
            Seq::<FileDiagnostic>::empty()
        },
    decreases s.len(),
{
    if s.len() > 0 {
        let rest = s.drop_last();
        let last = s.last();
        lemma_cached_ties(rest, pivot);
        if !(last.precedes(pivot) || pivot.precedes(last)) {
            lemma_tied_stage(last, pivot);
        }
        if indexer::cached_stage(last.stage) {
            assert(indexer::cached_diagnostics(s).drop_last() =~= indexer::cached_diagnostics(rest));
        }
    } else {
        assert(s =~= Seq::empty());
    }
}

/// The diagnostics of a scan and the cached ones of all come to all of them, in the
/// order in which they were reported.
proof fn lemma_diagnostics_restored(scanned: Seq<FileDiagnostic>, all: Seq<FileDiagnostic>)
    requires
        appended(scanned, all),
        forall|i: int|
            0 <= i < scanned.len() ==> !indexer::cached_stage((#[trigger] scanned[i]).stage),
    ensures
        sort::stable_sorted(scanned + indexer::cached_diagnostics(sort::stable_sorted(all)))
            == sort::stable_sorted(all),
{
    let cached = indexer::cached_diagnostics(sort::stable_sorted(all));
    let added = all.skip(scanned.len() as int);
    let (left, right) = (sort::stable_sorted(scanned + cached), sort::stable_sorted(all));
    assert(scanned + added =~= all);
    assert forall|pivot: FileDiagnostic| #[trigger] sort::ties(left, pivot) == sort::ties(
        right,
        pivot,
    ) by {
        sort::law_stable_sort(scanned + cached, pivot);
        sort::law_stable_sort(all, pivot);
        sort::lemma_ties_concat(scanned, cached, pivot);
        sort::lemma_ties_concat(scanned, added, pivot);
        lemma_cached_ties(right, pivot);
        if indexer::cached_stage(pivot.stage) {
            lemma_no_ties(scanned, pivot);
            assert(sort::ties(scanned, pivot) + sort::ties(cached, pivot) =~= sort::ties(
                cached,
                pivot,
            ));
        } else {
            lemma_no_ties(added, pivot);
            assert(sort::ties(scanned, pivot) + sort::ties(cached, pivot) =~= sort::ties(
                scanned,
                pivot,
            ));
            assert(sort::ties(scanned, pivot) + sort::ties(added, pivot) =~= sort::ties(
                scanned,
                pivot,
            ));
        }
    }
    if left.len() > 0 {
        sort::law_stable_sort(scanned + cached, left[0]);
        sort::law_stable_sort(all, left[0]);
    } else if right.len() > 0 {
        sort::law_stable_sort(scanned + cached, right[0]);
        sort::law_stable_sort(all, right[0]);
    }
    sort::lemma_sorted_by_ties(left, right);
}

/// An unchanged repository is answered from the cache as it was when it was indexed:
/// where a run that found no good record has gone through and was recorded, a later
/// run on the same scan finds the record good, and its report has the same model, the
/// same counts and the same diagnostics, in the same order, without a file being
/// parsed.
pub proof fn law_second_run_repeats_the_first(
    start: IndexRun,
    parsed: IndexRun,
    assembled: IndexRun,
    outcomes: Seq<Result<ParsedFile, RegistryError>>,
    report: IndexReport,
    cached: CachedIndex,
    again: IndexRun,
    second: IndexReport,
)
    requires
        start.fresh(),
        scanner::of_the_scan(start.diagnostics@),
        indexer::files_parsed(start, parsed, outcomes),
        indexer::files_assembled(parsed, assembled, indexer::parsed_of(outcomes)),
        indexer::finishes(assembled, report),
        indexer::records(report, start.fingerprint, assembled.parse_skipped_files, cached),
        again.repository == start.repository,
        again.fingerprint@ == start.fingerprint@,
        again.scanned_files == start.scanned_files,
        again.scan_skipped_files == start.scan_skipped_files,
        again.diagnostics@ == start.diagnostics@,
        indexer::answers_from(again, cached, second),
    ensures
        indexer::still_good(cached, again.fingerprint@, again.repository),
        ir::same_model(second.model, report.model),
        second.counts == report.counts,
        second.diagnostics@ == report.diagnostics@,
        second.cache_hit,
{
    let scanned = start.diagnostics@;
    lemma_failures_appended(scanned, parsed.diagnostics@, outcomes);
    lemma_refusals_appended(
        parsed.diagnostics@,
        assembled.diagnostics@,
        indexer::parsed_of(outcomes),
    );
    let all = assembled.diagnostics@;
    assert(appended(scanned, all)) by {
        assert(all.take(scanned.len() as int) =~= parsed.diagnostics@.take(scanned.len() as int));
        assert forall|i: int| scanned.len() <= i < all.len() implies indexer::cached_stage(
            (#[trigger] all[i]).stage,
        ) by {
            if i < parsed.diagnostics@.len() {
                assert(all[i] == all.take(parsed.diagnostics@.len() as int)[i]);
                assert(indexer::cached_stage(parsed.diagnostics@[i].stage));
            }
        }
    }
    assert forall|i: int| 0 <= i < scanned.len() implies !indexer::cached_stage(
        (#[trigger] scanned[i]).stage,
    ) by {
        assert(scanned[i].stage == DiagnosticStage::Scan);
    }
    lemma_diagnostics_restored(scanned, all);
}

/// A repository that has changed is parsed again: a record is good under no other
/// fingerprint than its own.
pub proof fn law_changed_repository_is_parsed_again(
    report: IndexReport,
    start: IndexRun,
    parse_skipped_files: u64,
    cached: CachedIndex,
    again: IndexRun,
)
    requires
        indexer::records(report, start.fingerprint, parse_skipped_files, cached),
        again.fingerprint@ != start.fingerprint@,
    ensures
        !indexer::still_good(cached, again.fingerprint@, again.repository),
{
}

/// What is written of a file.
#[verifier::opaque]
spec fn file_bytes(file: ScannedFile) -> Seq<u8> {
    scanner::with_file(Seq::empty(), file)
}

/// What is written of files, from the first on.
spec fn files_bytes(files: Seq<ScannedFile>) -> Seq<u8>
    decreases files.len(),
{
    if files.len() == 0 {
        Seq::empty()
    } else {
        file_bytes(files[0]) + files_bytes(files.drop_first())
    }
}

proof fn lemma_file_appended(bytes: Seq<u8>, file: ScannedFile)
    ensures
        scanner::with_file(bytes, file) == bytes + file_bytes(file),
{
    reveal(file_bytes);
    assert(scanner::with_file(bytes, file) =~= bytes + file_bytes(file));
}

proof fn lemma_files_from_the_first(bytes: Seq<u8>, files: Seq<ScannedFile>)
    ensures
        scanner::with_files(bytes, files) == bytes + files_bytes(files),
    decreases files.len(),
{
    if files.len() == 0 {
        assert(bytes + files_bytes(files) =~= bytes);
    } else {
        let rest = files.drop_last();
        lemma_files_from_the_first(bytes, rest);
        lemma_file_appended(scanner::with_files(bytes, rest), files.last());
        lemma_files_bytes_last(files);
        assert(bytes + files_bytes(rest) + file_bytes(files.last()) =~= bytes + files_bytes(files));
    }
}

proof fn lemma_files_bytes_last(files: Seq<ScannedFile>)
    requires
        files.len() > 0,
    ensures
        files_bytes(files) == files_bytes(files.drop_last()) + file_bytes(files.last()),
    decreases files.len(),
{
    if files.len() == 1 {
        assert(files_bytes(files.drop_first()) =~= Seq::empty());
        assert(files_bytes(files.drop_last()) =~= Seq::empty());
        assert(files[0] == files.last());
        assert(files_bytes(files) =~= files_bytes(files.drop_last()) + file_bytes(files.last()));
    } else {
        let rest = files.drop_first();
        lemma_files_bytes_last(rest);
        assert(rest.drop_last() =~= files.drop_last().drop_first());
        assert(files_bytes(files) =~= files_bytes(files.drop_last()) + file_bytes(files.last()));
    }
}

/// A file whose texts are short enough for their lengths to be written.
pub open spec fn writable(file: ScannedFile) -> bool {
    &&& vstd::utf8::encode_utf8(file.path@).len() < digest::pow256(8)
    &&& vstd::utf8::encode_utf8(file.language.key()).len() < digest::pow256(8)
    &&& vstd::utf8::encode_utf8(file.source@).len() < digest::pow256(8)
}

/// The same file to a reader: path, language, modification time and source.
pub open spec fn same_file(left: ScannedFile, right: ScannedFile) -> bool {
    &&& left.path@ == right.path@
    &&& left.language.key() == right.language.key()
    &&& left.modified == right.modified
    &&& left.source@ == right.source@
}

spec fn stamp_bytes(modified: Option<(u64, u32)>) -> Seq<u8> {
    match modified {
        Some((seconds, nanos)) => seq![1u8] + digest::be_bytes(seconds as nat, 8)
            + digest::be_bytes(nanos as nat, 8),
        None => seq![0u8],
    }
}

proof fn lemma_stamp_is_prefix_free(
    left: Option<(u64, u32)>,
    more_left: Seq<u8>,
    right: Option<(u64, u32)>,
    more_right: Seq<u8>,
)
    requires
        stamp_bytes(left) + more_left == stamp_bytes(right) + more_right,
    ensures
        left == right,
        more_left == more_right,
{
    let (a, b) = (stamp_bytes(left) + more_left, stamp_bytes(right) + more_right);
    assert(a[0] == b[0]);
    digest::lemma_pow256_values();
    match (left, right) {
        (Some((s, n)), Some((t, m))) => {
            digest::lemma_be_bytes_len(s as nat, 8);
            digest::lemma_be_bytes_len(n as nat, 8);
            digest::lemma_be_bytes_len(t as nat, 8);
            digest::lemma_be_bytes_len(m as nat, 8);
            assert(a.subrange(1, 9) =~= digest::be_bytes(s as nat, 8));
            assert(b.subrange(1, 9) =~= digest::be_bytes(t as nat, 8));
            assert(a.subrange(9, 17) =~= digest::be_bytes(n as nat, 8));
            assert(b.subrange(9, 17) =~= digest::be_bytes(m as nat, 8));
            digest::lemma_be_round_trip(s as nat, 8);
            digest::lemma_be_round_trip(t as nat, 8);
            digest::lemma_be_round_trip(n as nat, 8);
            digest::lemma_be_round_trip(m as nat, 8);
            assert(a.skip(17) =~= more_left);
            assert(b.skip(17) =~= more_right);
        },
        _ => {
            assert(a.skip(1) =~= more_left);
            assert(b.skip(1) =~= more_right);
        },
    }
}

/// What is written of a file, part by part.
proof fn lemma_file_parts(file: ScannedFile, more: Seq<u8>)
    ensures
        file_bytes(file) + more == digest::component(file.path@) + (digest::component(
            file.language.key(),
        ) + (stamp_bytes(file.modified) + (digest::component(file.source@) + more))),
{
    reveal(file_bytes);
    let (a, b, c) = (
        digest::component(file.path@),
        digest::component(file.language.key()),
        digest::component(file.source@),
    );
    let stamp = stamp_bytes(file.modified);
    assert(file_bytes(file) =~= a + b + stamp + c);
    assert(a + b + stamp + c + more =~= a + (b + (stamp + (c + more))));
}

proof fn lemma_file_is_prefix_free(
    left: ScannedFile,
    more_left: Seq<u8>,
    right: ScannedFile,
    more_right: Seq<u8>,
)
    requires
        writable(left),
        writable(right),
        file_bytes(left) + more_left == file_bytes(right) + more_right,
    ensures
        same_file(left, right),
        more_left == more_right,
{
    let (a, b) = (
        digest::component(left.source@) + more_left,
        digest::component(right.source@) + more_right,
    );
    let (c, d) = (stamp_bytes(left.modified) + a, stamp_bytes(right.modified) + b);
    let (e, f) = (
        digest::component(left.language.key()) + c,
        digest::component(right.language.key()) + d,
    );
    lemma_file_parts(left, more_left);
    lemma_file_parts(right, more_right);
    digest::lemma_frame_is_prefix_free(
        vstd::utf8::encode_utf8(left.path@),
        e,
        vstd::utf8::encode_utf8(right.path@),
        f,
    );
    digest::lemma_frame_is_prefix_free(
        vstd::utf8::encode_utf8(left.language.key()),
        c,
        vstd::utf8::encode_utf8(right.language.key()),
        d,
    );
    lemma_stamp_is_prefix_free(left.modified, a, right.modified, b);
    digest::lemma_frame_is_prefix_free(
        vstd::utf8::encode_utf8(left.source@),
        more_left,
        vstd::utf8::encode_utf8(right.source@),
        more_right,
    );
    vstd::utf8::encode_utf8_decode_utf8(left.path@);
    vstd::utf8::encode_utf8_decode_utf8(right.path@);
    vstd::utf8::encode_utf8_decode_utf8(left.language.key());
    vstd::utf8::encode_utf8_decode_utf8(right.language.key());
    vstd::utf8::encode_utf8_decode_utf8(left.source@);
    vstd::utf8::encode_utf8_decode_utf8(right.source@);
}

proof fn lemma_file_is_some_bytes(file: ScannedFile)
    ensures
        file_bytes(file).len() > 0,
{
    reveal(file_bytes);
}

proof fn lemma_files_told_apart(left: Seq<ScannedFile>, right: Seq<ScannedFile>)
    requires
        forall|i: int| 0 <= i < left.len() ==> writable(#[trigger] left[i]),
        forall|i: int| 0 <= i < right.len() ==> writable(#[trigger] right[i]),
        files_bytes(left) == files_bytes(right),
    ensures
        left.len() == right.len(),
        forall|i: int| 0 <= i < left.len() ==> same_file(#[trigger] left[i], right[i]),
    decreases left.len(),
{
    if left.len() == 0 || right.len() == 0 {
        if left.len() > 0 {
            lemma_file_is_some_bytes(left[0]);
            assert(files_bytes(left).len() > 0);
        }
        if right.len() > 0 {
            lemma_file_is_some_bytes(right[0]);
            assert(files_bytes(right).len() > 0);
        }
    } else {
        let (rest, more) = (left.drop_first(), right.drop_first());
        lemma_file_is_prefix_free(left[0], files_bytes(rest), right[0], files_bytes(more));
        assert forall|i: int| 0 <= i < rest.len() implies writable(#[trigger] rest[i]) by {
            assert(rest[i] == left[i + 1]);
        }
        assert forall|i: int| 0 <= i < more.len() implies writable(#[trigger] more[i]) by {
            assert(more[i] == right[i + 1]);
        }
        lemma_files_told_apart(rest, more);
        assert forall|i: int| 0 <= i < left.len() implies same_file(
            #[trigger] left[i],
            right[i],
        ) by {
            if i > 0 {
                assert(same_file(rest[i - 1], more[i - 1]));
            }
        }
    }
}

/// The fingerprint of a scan covers everything that a scan yields: under the same
/// limits, the bytes that it is taken of are the same only for the same files, each
/// with the same path, language, modification time and source. Whether a digest can
/// be the same for other bytes is not said.
pub proof fn law_scan_bytes_tell_files_apart(
    config: ScanConfig,
    left: Seq<ScannedFile>,
    right: Seq<ScannedFile>,
)
    requires
        forall|i: int| 0 <= i < left.len() ==> writable(#[trigger] left[i]),
        forall|i: int| 0 <= i < right.len() ==> writable(#[trigger] right[i]),
        scanner::scan_bytes(config, left) == scanner::scan_bytes(config, right),
    ensures
        left.len() == right.len(),
        forall|i: int| 0 <= i < left.len() ==> same_file(#[trigger] left[i], right[i]),
{
    let head = scanner::scan_bytes(config, Seq::empty());
    lemma_files_from_the_first(head, left);
    lemma_files_from_the_first(head, right);
    let (a, b) = (files_bytes(left), files_bytes(right));
    assert((head + a).skip(head.len() as int) =~= a);
    assert((head + b).skip(head.len() as int) =~= b);
    lemma_files_told_apart(left, right);
}

proof fn lemma_revisions_appended(bytes: Seq<u8>, revisions: Seq<Revision>)
    ensures
        indexer::with_revisions(bytes, revisions) == bytes + indexer::with_revisions(
            Seq::empty(),
            revisions,
        ),
    decreases revisions.len(),
{
    if revisions.len() > 0 {
        lemma_revisions_appended(bytes, revisions.drop_last());
    }
    assert(indexer::with_revisions(bytes, revisions) =~= bytes + indexer::with_revisions(
        Seq::empty(),
        revisions,
    ));
}

/// The fingerprint of an index covers that of its scan: the bytes that it is taken of
/// are the same only for the same fingerprint of the scan and the same revision of
/// the cache.
pub proof fn law_index_bytes_tell_scans_apart(
    left: Seq<char>,
    left_revision: Seq<char>,
    left_parsers: Seq<Revision>,
    right: Seq<char>,
    right_revision: Seq<char>,
    right_parsers: Seq<Revision>,
)
    requires
        vstd::utf8::encode_utf8(left).len() < digest::pow256(8),
        vstd::utf8::encode_utf8(left_revision).len() < digest::pow256(8),
        vstd::utf8::encode_utf8(right).len() < digest::pow256(8),
        vstd::utf8::encode_utf8(right_revision).len() < digest::pow256(8),
        indexer::index_bytes(left, left_revision, left_parsers) == indexer::index_bytes(
            right,
            right_revision,
            right_parsers,
        ),
    ensures
        left == right,
        left_revision == right_revision,
{
    let head = vstd::utf8::encode_utf8("codeatlas-index-fingerprint-v1"@);
    let (a, b) = (
        indexer::with_revisions(Seq::empty(), left_parsers),
        indexer::with_revisions(Seq::empty(), right_parsers),
    );
    lemma_revisions_appended(
        head + digest::component(left) + digest::component(left_revision),
        left_parsers,
    );
    lemma_revisions_appended(
        head + digest::component(right) + digest::component(right_revision),
        right_parsers,
    );
    let (c, d) = (
        digest::component(left_revision) + a,
        digest::component(right_revision) + b,
    );
    let (e, f) = (digest::component(left) + c, digest::component(right) + d);
    assert(indexer::index_bytes(left, left_revision, left_parsers) =~= head + e);
    assert(indexer::index_bytes(right, right_revision, right_parsers) =~= head + f);
    assert((head + e).skip(head.len() as int) =~= e);
    assert((head + f).skip(head.len() as int) =~= f);
    digest::lemma_frame_is_prefix_free(
        vstd::utf8::encode_utf8(left),
        c,
        vstd::utf8::encode_utf8(right),
        d,
    );
    digest::lemma_frame_is_prefix_free(
        vstd::utf8::encode_utf8(left_revision),
        a,
        vstd::utf8::encode_utf8(right_revision),
        b,
    );
    vstd::utf8::encode_utf8_decode_utf8(left);
    vstd::utf8::encode_utf8_decode_utf8(right);
    vstd::utf8::encode_utf8_decode_utf8(left_revision);
    vstd::utf8::encode_utf8_decode_utf8(right_revision);
}

} // verus!
