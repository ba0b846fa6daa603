//! Which files a scan keeps, and in which language they are read.
use crate::diagnostic::{DiagnosticSeverity, DiagnosticStage};
use crate::ir::Language;
use crate::scanner;
use crate::scanner::{
    EntryAction, EntryKind, EntryPart, MetadataAction, MetadataReport, PendingFile, ReadReport,
    ScanConfig, ScanState, WalkEvent,
};
use crate::text;
use vstd::prelude::*;

verus! {

/// Whether a text is one of lower-case letters, in any case.
pub open spec fn spells(written: Seq<char>, word: Seq<char>) -> bool {
    written.len() == word.len() && forall|i: int|
        0 <= i < word.len() ==> #[trigger] written[i] == word[i] || written[i]
            == text::ascii_upper(word[i])
}

pub open spec fn without(s: Seq<char>, c: char) -> bool {
    forall|i: int| 0 <= i < s.len() ==> #[trigger] s[i] != c
}

proof fn lemma_last_dot(stem: Seq<char>, extension: Seq<char>)
    requires
        without(extension, '.'),
    ensures
        scanner::last_dot(stem + seq!['.'] + extension) == stem.len(),
    decreases extension.len(),
{
    let name = stem + seq!['.'] + extension;
    if extension.len() == 0 {
        assert(name.last() == '.');
    } else {
        let shorter = extension.drop_last();
        assert(name.last() == extension.last());
        assert(extension[extension.len() - 1] != '.');
        assert forall|i: int| 0 <= i < shorter.len() implies #[trigger] shorter[i] != '.' by {
            assert(shorter[i] == extension[i]);
        }
        assert(name.drop_last() =~= stem + seq!['.'] + shorter);
        lemma_last_dot(stem, shorter);
    }
}

proof fn lemma_no_dot(name: Seq<char>)
    requires
        without(name, '.'),
    ensures
        scanner::last_dot(name) == -1,
    decreases name.len(),
{
    if name.len() > 0 {
        let rest = name.drop_last();
        assert(name[name.len() - 1] != '.');
        assert forall|i: int| 0 <= i < rest.len() implies #[trigger] rest[i] != '.' by {
            assert(rest[i] == name[i]);
        }
        lemma_no_dot(rest);
    }
}

proof fn lemma_spelled(written: Seq<char>, word: Seq<char>)
    requires
        forall|i: int| 0 <= i < word.len() ==> 'a' <= #[trigger] word[i] <= 'z',
    ensures
        scanner::same_ignoring_case(written, word) == spells(written, word),
{
    if written.len() == word.len() {
        assert forall|i: int| 0 <= i < word.len() implies (text::ascii_lower(written[i])
            == text::ascii_lower(word[i])) == (#[trigger] written[i] == word[i] || written[i]
            == text::ascii_upper(word[i])) by {
            assert('a' <= word[i] <= 'z');
        }
    }
}

/// The last component of a path.
proof fn lemma_file_name(directories: Seq<char>, name: Seq<char>)
    requires
        without(name, '/'),
    ensures
        scanner::file_name(directories + seq!['/'] + name) == name,
        scanner::file_name(name) == name,
{
    text::lemma_split_joined(directories, name, '/');
    text::lemma_index_of(name, '/');
    assert(text::split_on(name, '/') =~= seq![name]);
    assert((text::split_on(directories, '/') + seq![name]).last() == name);
}

/// A file is read as Rust if its name ends with `.rs` behind something, as Python if it
/// ends with `.py` or `.pyi`, in any case, and not at all otherwise, whatever directories
/// it stands in.
pub proof fn law_language_is_that_of_the_extension(
    directories: Seq<char>,
    stem: Seq<char>,
    extension: Seq<char>,
)
    requires
        stem.len() > 0,
        without(stem, '/'),
        without(extension, '/'),
        without(extension, '.'),
    ensures
        ({
            let name = stem + seq!['.'] + extension;
            let language = scanner::path_language(directories + seq!['/'] + name);
            &&& language == scanner::path_language(name)
            &&& (language == Some(Language::Rust)) == spells(extension, seq!['r', 's'])
            &&& (language == Some(Language::Python)) == (spells(extension, seq!['p', 'y'])
                || spells(extension, seq!['p', 'y', 'i']))
            &&& language is None == !(spells(extension, seq!['r', 's']) || spells(
                extension,
                seq!['p', 'y'],
            ) || spells(extension, seq!['p', 'y', 'i']))
        }),
{
    let name = stem + seq!['.'] + extension;
    assert(without(name, '/')) by {
        assert forall|i: int| 0 <= i < name.len() implies #[trigger] name[i] != '/' by {
            if i < stem.len() {
                assert(name[i] == stem[i]);
            } else if i > stem.len() {
                assert(name[i] == extension[i - stem.len() - 1]);
            }
        }
    }
    lemma_file_name(directories, name);
    lemma_last_dot(stem, extension);
    assert(name.skip(stem.len() as int + 1) =~= extension);
    lemma_spelled(extension, seq!['r', 's']);
    lemma_spelled(extension, seq!['p', 'y']);
    lemma_spelled(extension, seq!['p', 'y', 'i']);
    if spells(extension, seq!['r', 's']) && spells(extension, seq!['p', 'y']) {
        assert(seq!['r', 's'][0] == 'r' && seq!['p', 'y'][0] == 'p');
        assert(extension[0] == 'r' || extension[0] == text::ascii_upper('r'));
        assert(extension[0] == 'p' || extension[0] == text::ascii_upper('p'));
        assert(false);
    }
}

/// A file whose name has no dot, or only one at its start, is in no language.
pub proof fn law_bare_names_are_in_no_language(directories: Seq<char>, name: Seq<char>)
    requires
        without(name, '/'),
        without(name, '.'),
    ensures
        scanner::path_language(directories + seq!['/'] + name) is None,
        scanner::path_language(directories + seq!['/'] + (seq!['.'] + name)) is None,
{
    lemma_file_name(directories, name);
    lemma_no_dot(name);
    let hidden = seq!['.'] + name;
    assert(without(hidden, '/')) by {
        assert forall|i: int| 0 <= i < hidden.len() implies #[trigger] hidden[i] != '/' by {
            if i > 0 {
                assert(hidden[i] == name[i - 1]);
            }
        }
    }
    lemma_file_name(directories, hidden);
    lemma_last_dot(Seq::empty(), name);
    assert(Seq::<char>::empty() + seq!['.'] + name =~= hidden);
}

/// Whether a file was skipped: nothing is kept of it, one more is counted as skipped, and
/// what else is kept stays.
pub open spec fn skipped(before: ScanState, after: ScanState) -> bool {
    &&& after.files@ == before.files@
    &&& after.total_bytes == before.total_bytes
    &&& before.skipped_files < u64::MAX ==> after.skipped_files == before.skipped_files + 1
    &&& before.skipped_files == u64::MAX ==> after.skipped_files == u64::MAX
    &&& after.visited_entries == before.visited_entries
}

/// Whether one diagnostic more says of a file why it was skipped.
pub open spec fn reported(before: ScanState, after: ScanState, file: PendingFile) -> bool {
    &&& after.diagnostics@.len() == before.diagnostics@.len() + 1
    &&& after.diagnostics@.drop_last() == before.diagnostics@
    &&& after.diagnostics@.last().path == Some(file.path)
}

/// What was read of a file is kept if and only if it is no larger than a file may be, and
/// no larger than what is left of the total, has no zero byte among those that are
/// probed, and is UTF-8. A file that is kept has the path and the language that it was
/// inspected with and the bytes that were read; one that is not is skipped, and that is
/// reported.
pub proof fn law_readable_text_is_kept(
    config: ScanConfig,
    before: ScanState,
    file: PendingFile,
    modified: Option<(u64, u32)>,
    bytes: Vec<u8>,
    after: ScanState,
)
    requires
        scanner::read_step(config, before, file, modified, ReadReport::Bytes(bytes), after),
    ensures
        ({
            let size = bytes@.len();
            let kept = size <= config.max_file_size && before.total_bytes + size
                <= config.max_total_bytes && (forall|i: int|
                0 <= i < size && i < config.binary_probe_bytes ==> #[trigger] bytes@[i] != 0)
                && vstd::utf8::valid_utf8(bytes@);
            &&& kept ==> {
                &&& after.files@.len() == before.files@.len() + 1
                &&& after.files@.drop_last() == before.files@
                &&& after.files@.last().path == file.path
                &&& after.files@.last().language == file.language
                &&& vstd::utf8::encode_utf8(after.files@.last().source@) == bytes@
                &&& after.total_bytes == before.total_bytes + size
                &&& after.skipped_files == before.skipped_files
                &&& after.diagnostics@ == before.diagnostics@
            }
            &&& !kept ==> skipped(before, after) && reported(before, after, file)
        }),
{
}

/// A file that cannot be read is skipped, and that is reported.
pub proof fn law_unreadable_file_is_skipped(
    config: ScanConfig,
    before: ScanState,
    file: PendingFile,
    modified: Option<(u64, u32)>,
    reason: String,
    after: ScanState,
)
    requires
        scanner::read_step(config, before, file, modified, ReadReport::Failed(reason), after),
    ensures
        skipped(before, after),
        reported(before, after, file),
{
}

/// A file is read if and only if it is a regular file, no larger than a file may be, and
/// there is room for one more; a file that is not read is skipped.
pub proof fn law_file_within_limits_is_read(
    config: ScanConfig,
    before: ScanState,
    file: PendingFile,
    report: MetadataReport,
    after: ScanState,
    action: MetadataAction,
)
    requires
        scanner::metadata_step(config, before, file, report, after, action),
    ensures
        action is Read == (report matches MetadataReport::Found { regular, len, .. } && regular
            && len <= config.max_file_size && before.files@.len() < config.max_files),
        action matches MetadataAction::Read { file: read, modified } ==> read == file && (
        report matches MetadataReport::Found { modified: known, .. } && known == modified)
            && after.files@ == before.files@ && after.skipped_files == before.skipped_files,
        !(action is Read) ==> skipped(before, after),
{
}

/// An entry is inspected only if it is a file below the root in a known language, and
/// then in that language. Entries beyond the limit stop the walk.
pub proof fn law_only_sources_are_inspected(
    config: ScanConfig,
    before: ScanState,
    event: WalkEvent,
    after: ScanState,
    action: EntryAction,
)
    requires
        scanner::entry_step(config, before, event, after, action),
    ensures
        action is Stop == (before.visited_entries >= config.max_entries),
        action is Stop || after.visited_entries == before.visited_entries + 1,
        after.files@ == before.files@,
        after.total_bytes == before.total_bytes,
        action matches EntryAction::Inspect(file) ==> {
            &&& event matches WalkEvent::Entry { depth, kind, .. } && depth > 0 && kind == Some(
                EntryKind::File,
            )
            &&& scanner::path_language(file.path@) == Some(file.language)
            &&& after.skipped_files == before.skipped_files
            &&& after.diagnostics@ == before.diagnostics@
        },
{
}

/// Whether parts are names without separators.
pub open spec fn are_names(parts: Seq<EntryPart>, names: Seq<Seq<char>>) -> bool {
    parts.len() == names.len() && forall|i: int|
        #![trigger parts[i]]
        0 <= i < parts.len() ==> {
            &&& parts[i] matches EntryPart::Normal(name) && name@ == names[i]
            &&& names[i].len() > 0
            &&& without(names[i], '/')
        }
}

/// The path of an entry has the names that lead to it as its components, in order.
pub proof fn law_path_has_the_names_as_components(
    parts: Seq<EntryPart>,
    names: Seq<Seq<char>>,
)
    requires
        parts.len() > 0,
        are_names(parts, names),
    ensures
        text::split_on(scanner::joined_parts(parts), '/') == names,
        scanner::joined_parts(parts).len() > 0,
    decreases parts.len(),
{
    let last = parts.len() - 1;
    let name = names[last];
    assert(parts[last] == parts.last());
    text::lemma_index_of(name, '/');
    assert(text::split_on(name, '/') =~= seq![name]);
    let earlier = scanner::joined_parts(parts.drop_last());
    if last == 0 {
        assert(earlier.len() == 0);
        assert(scanner::joined_parts(parts) =~= name);
        assert(names =~= seq![name]);
    } else {
        let rest = parts.drop_last();
        let fewer = names.drop_last();
        assert forall|i: int|
            #![trigger rest[i]]
            0 <= i < rest.len() implies {
            &&& rest[i] matches EntryPart::Normal(name) && name@ == fewer[i]
            &&& fewer[i].len() > 0
            &&& without(fewer[i], '/')
        } by {
            assert(rest[i] == parts[i]);
        }
        law_path_has_the_names_as_components(rest, fewer);
        text::lemma_split_joined(earlier, name, '/');
        assert(scanner::joined_parts(parts) =~= earlier + seq!['/'] + name);
        assert(names =~= fewer + seq![name]);
    }
}

/// Whether one diagnostic more warns of the entry with a path.
pub open spec fn warns_of(before: ScanState, after: ScanState, found: Seq<char>, code: Seq<char>) -> bool {
    &&& after.diagnostics@.len() == before.diagnostics@.len() + 1
    &&& after.diagnostics@.drop_last() == before.diagnostics@
    &&& after.diagnostics@.last().path matches Some(path) && path@ == found
    &&& after.diagnostics@.last().stage == DiagnosticStage::Scan
    &&& after.diagnostics@.last().severity == DiagnosticSeverity::Warning
    &&& after.diagnostics@.last().code@ == code
}

/// A symbolic link, a special file and an entry of unknown type are skipped, and each is
/// told of with its path. A directory is no file that could be skipped, and a file in no
/// known language is skipped without a word.
pub proof fn law_entry_that_is_no_source_is_skipped(
    before: ScanState,
    found: Seq<char>,
    kind: Option<EntryKind>,
    after: ScanState,
    action: EntryAction,
)
    requires
        scanner::located_step(before, found, kind, after, action),
    ensures
        kind == Some(EntryKind::SymbolicLink) ==> action is Continue && skipped(before, after)
            && warns_of(before, after, found, "symbolic_link"@),
        kind == Some(EntryKind::Special) ==> action is Continue && skipped(before, after)
            && warns_of(before, after, found, "special_file"@),
        kind is None ==> action is Continue && skipped(before, after) && warns_of(
            before,
            after,
            found,
            "unknown_file_type"@,
        ),
        kind == Some(EntryKind::Directory) ==> action is Continue && after.skipped_files
            == before.skipped_files && after.diagnostics@ == before.diagnostics@ && after.files@
            == before.files@,
        kind == Some(EntryKind::File) && scanner::path_language(found) is None ==> action
            is Continue && skipped(before, after) && after.diagnostics@ == before.diagnostics@,
        kind == Some(EntryKind::File) && scanner::path_language(found) is Some ==> action
            is Inspect,
{
}

} // verus!
