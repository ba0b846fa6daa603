//! The decisions of a repository scan.
//!
//! Walking directories and reading files is left to the caller, who reports what
//! was met and does what is asked for: first each entry of the walk, then the
//! metadata of the files that are wanted, then their contents.
use crate::diagnostic::{DiagnosticSeverity, DiagnosticStage, FileDiagnostic};
use crate::digest;
use crate::ir::Language;
use crate::path;
use crate::path::{RepositoryPath, RepositoryPathError};
use crate::sort;
use crate::sort::Ordered;
use crate::text;
use crate::wrap;
use vstd::prelude::*;
use vstd::slice::slice_subrange;

verus! {

/// Limits of a scan. The excluded directory names are a set: neither their order
/// nor a repetition matters.
#[derive(Debug, Clone, PartialEq, Eq)]
pub struct ScanConfig {
    pub max_file_size: u64,
    pub max_total_bytes: u64,
    pub max_files: usize,
    pub max_entries: usize,
    pub max_depth: usize,
    pub binary_probe_bytes: usize,
    pub excluded_directories: Vec<String>,
}

impl ScanConfig {
    /// The limits that hold where none are chosen.
    pub open spec fn is_default(self) -> bool {
        &&& self.max_file_size == 2 * 1024 * 1024
        &&& self.max_total_bytes == 512 * 1024 * 1024
        &&& self.max_files == 100_000
        &&& self.max_entries == 250_000
        &&& self.max_depth == 64
        &&& self.binary_probe_bytes == 8 * 1024
        &&& self.excluded_directories@.len() == 4
        &&& self.excluded_directories@[0]@ == ".git"@
        &&& self.excluded_directories@[1]@ == ".venv"@
        &&& self.excluded_directories@[2]@ == "node_modules"@
        &&& self.excluded_directories@[3]@ == "target"@
    }
}

impl Default for ScanConfig {
    fn default() -> (config: ScanConfig)
        ensures
            config.is_default(),
    {
        let mut excluded_directories: Vec<String> = Vec::new();
        excluded_directories.push(".git".to_owned());
        excluded_directories.push(".venv".to_owned());
        excluded_directories.push("node_modules".to_owned());
        excluded_directories.push("target".to_owned());
        ScanConfig {
            max_file_size: 2_097_152,
            max_total_bytes: 536_870_912,
            max_files: 100_000,
            max_entries: 250_000,
            max_depth: 64,
            binary_probe_bytes: 8_192,
            excluded_directories,
        }
    }
}

impl ScanConfig {
    /// Whether a directory name is excluded.
    pub open spec fn excluded(self, name: Seq<char>) -> bool {
        exists|i: int|
            0 <= i < self.excluded_directories@.len() && (
            #[trigger] self.excluded_directories@[i])@ == name
    }

    /// Whether the walk enters an entry: the root, anything that is no directory,
    /// and directories whose name is not excluded. A name that is not UTF-8 is
    /// never excluded.
    pub fn enters(&self, depth: usize, is_directory: bool, name: Option<&str>) -> (entered: bool)
        ensures
            entered == (depth == 0 || !is_directory || match name {
                Some(name) => !self.excluded(name@),
                None => true,
            }),
    {
        if depth == 0 || !is_directory {
            return true;
        }
        match name {
            None => true,
            Some(wanted) => {
                let mut index: usize = 0;
                while index < self.excluded_directories.len()
                    invariant
                        index <= self.excluded_directories@.len(),
                        depth != 0,
                        is_directory,
                        name == Some(wanted),
                        forall|i: int|
                            0 <= i < index ==> (#[trigger] self.excluded_directories@[i])@
                                != wanted@,
                    decreases self.excluded_directories@.len() - index,
                {
                    if text::same_text(self.excluded_directories[index].as_str(), wanted) {
                        assert(self.excluded_directories@[index as int]@ == wanted@);
                        return false;
                    }
                    index = index + 1;
                }
                true
            },
        }
    }
}

/// A scanner of repositories with its limits.
#[derive(Debug, Clone, PartialEq, Eq)]
pub struct RepositoryScanner {
    config: ScanConfig,
}

impl RepositoryScanner {
    pub closed spec fn config_of(self) -> ScanConfig {
        self.config
    }

    pub fn new(config: ScanConfig) -> (scanner: RepositoryScanner)
        ensures
            scanner.config_of() == config,
    {
        RepositoryScanner { config }
    }

    pub fn config(&self) -> (config: &ScanConfig)
        ensures
            *config == self.config_of(),
    {
        &self.config
    }
}

impl Default for RepositoryScanner {
    fn default() -> (scanner: RepositoryScanner)
        ensures
            scanner.config_of().is_default(),
    {
        RepositoryScanner::new(ScanConfig::default())
    }
}

/// A source file that was read, with its modification time in seconds and
/// nanoseconds since the Unix epoch.
#[derive(Debug, Clone, PartialEq, Eq)]
pub struct ScannedFile {
    pub path: RepositoryPath,
    pub language: Language,
    pub source: String,
    pub modified: Option<(u64, u32)>,
}

impl Ordered for ScannedFile {
    open spec fn precedes(self, other: ScannedFile) -> bool {
        text::before(self.path@, other.path@)
    }

    proof fn order_laws(a: ScannedFile, b: ScannedFile, c: ScannedFile) {
        text::law_text_order(a.path@, b.path@, c.path@);
        text::law_text_order(b.path@, a.path@, c.path@);
    }

    fn comes_before(&self, other: &ScannedFile) -> (before: bool) {
        text::text_before(self.path.as_str(), other.path.as_str())
    }
}

#[derive(Debug, Clone, PartialEq, Eq)]
pub struct ScanResult {
    pub files: Vec<ScannedFile>,
    pub skipped_files: u64,
    pub diagnostics: Vec<FileDiagnostic>,
    pub fingerprint: String,
}

/// Why a repository cannot be scanned at all.
#[derive(Debug, Clone, PartialEq, Eq)]
pub enum ScanError {
    ResolveRoot { path: String, reason: String },
    NotDirectory(String),
    Cancelled,
}

impl ScanError {
    /// What the error tells a reader.
    pub open spec fn message_text(self) -> Seq<char> {
        match self {
            ScanError::ResolveRoot { path, reason } => "failed to resolve repository root "@ + path@
                + ": "@ + reason@,
            ScanError::NotDirectory(path) => "repository root is not a directory: "@ + path@,
            ScanError::Cancelled => "repository scan was cancelled"@,
        }
    }

    pub fn to_string(&self) -> (message: String)
        ensures
            message@ == self.message_text(),
    {
        match self {
            ScanError::ResolveRoot { path, reason } => {
                let mut message = "failed to resolve repository root ".to_owned();
                message.push_str(path.as_str());
                message.push_str(": ");
                message.push_str(reason.as_str());
                message
            },
            ScanError::NotDirectory(path) => {
                let mut message = "repository root is not a directory: ".to_owned();
                message.push_str(path.as_str());
                message
            },
            ScanError::Cancelled => "repository scan was cancelled".to_owned(),
        }
    }
}

/// One component of a path below the root.
#[derive(Debug, Clone, PartialEq, Eq)]
pub enum EntryPart {
    Normal(String),
    /// A name that is not valid UTF-8.
    Undecodable,
    /// A root, a prefix, `.` or `..`.
    Irregular,
}

/// The path of an entry, seen from the root.
#[derive(Debug, Clone, PartialEq, Eq)]
pub enum EntryPath {
    /// Not below the root, for a reason.
    Outside(String),
    Below(Vec<EntryPart>),
}

#[derive(Debug, Clone, Copy, PartialEq, Eq, Structural)]
pub enum EntryKind {
    SymbolicLink,
    Directory,
    File,
    Special,
}

/// What the walk met.
#[derive(Debug, Clone, PartialEq, Eq)]
pub enum WalkEvent {
    /// An error, with the path it is about and the kind of the I/O error behind
    /// it, as far as they are known.
    Failed { path: Option<RepositoryPath>, io_kind: Option<String> },
    /// An entry, with its kind if it could be determined.
    Entry { depth: usize, path: EntryPath, kind: Option<EntryKind> },
}

/// A file whose metadata or contents are asked for.
#[derive(Debug, Clone, PartialEq, Eq)]
pub struct PendingFile {
    pub path: RepositoryPath,
    pub language: Language,
}

/// What to do after an entry.
#[derive(Debug, Clone, PartialEq, Eq)]
pub enum EntryAction {
    /// End the walk.
    Stop,
    /// Go on to the next entry.
    Continue,
    /// Report the metadata of the entry.
    Inspect(PendingFile),
}

/// The metadata of a file.
#[derive(Debug, Clone, PartialEq, Eq)]
pub enum MetadataReport {
    Failed(String),
    Found {
        /// Whether the entry is still a regular file and no symbolic link.
        regular: bool,
        len: u64,
        modified: Option<(u64, u32)>,
    },
}

/// What to do after the metadata of a file.
#[derive(Debug, Clone, PartialEq, Eq)]
pub enum MetadataAction {
    Continue,
    /// Read the contents of the file.
    Read { file: PendingFile, modified: Option<(u64, u32)> },
}

/// The contents of a file, as far as they were read.
#[derive(Debug, Clone, PartialEq, Eq)]
pub enum ReadReport {
    Failed(String),
    Bytes(Vec<u8>),
}

/// A scan in progress.
#[derive(Debug, Clone, PartialEq, Eq)]
pub struct ScanState {
    pub files: Vec<ScannedFile>,
    pub diagnostics: Vec<FileDiagnostic>,
    pub skipped_files: u64,
    pub total_bytes: u64,
    pub file_limit_reported: bool,
    pub visited_entries: usize,
}

/// The number of bytes of all sources.
pub open spec fn source_bytes(files: Seq<ScannedFile>) -> nat
    decreases files.len(),
{
    if files.len() == 0 {
        0
    } else {
        source_bytes(files.drop_last()) + vstd::utf8::encode_utf8(files.last().source@).len()
    }
}

/// Whether every file is within the size that a file may have, and has no NUL byte
/// among the bytes that are probed.
pub open spec fn sources_within(files: Seq<ScannedFile>, config: ScanConfig) -> bool {
    forall|i: int|
        0 <= i < files.len() ==> {
            let bytes = vstd::utf8::encode_utf8((#[trigger] files[i]).source@);
            bytes.len() <= config.max_file_size && !probed_binary(config, bytes)
        }
}

/// One more, unless that cannot be counted.
pub open spec fn one_more(count: u64) -> u64 {
    if count < u64::MAX {
        (count + 1) as u64
    } else {
        count
    }
}

/// What a step of the scan leaves of the state: a file is counted as skipped and
/// a warning says why.
pub open spec fn warned(
    before: ScanState,
    after: ScanState,
    path: Option<RepositoryPath>,
    code: Seq<char>,
    message: Seq<char>,
) -> bool {
    &&& counted_skip(before, after)
    &&& after.diagnostics@.len() == before.diagnostics@.len() + 1
    &&& after.diagnostics@.drop_last() == before.diagnostics@
    &&& after.diagnostics@.last().says(
        path,
        DiagnosticStage::Scan,
        DiagnosticSeverity::Warning,
        code,
        message,
    )
    &&& after.file_limit_reported == before.file_limit_reported
}

/// A file is counted as skipped; the files and the total are as before.
pub open spec fn counted_skip(before: ScanState, after: ScanState) -> bool {
    &&& after.files@ == before.files@
    &&& after.total_bytes == before.total_bytes
    &&& after.skipped_files == one_more(before.skipped_files)
    &&& after.visited_entries == before.visited_entries
}

/// A file is counted as skipped without a word.
pub open spec fn skipped_silently(before: ScanState, after: ScanState) -> bool {
    &&& counted_skip(before, after)
    &&& after.diagnostics@ == before.diagnostics@
    &&& after.file_limit_reported == before.file_limit_reported
}

pub open spec fn unchanged(before: ScanState, after: ScanState) -> bool {
    &&& after.files@ == before.files@
    &&& after.diagnostics@ == before.diagnostics@
    &&& after.total_bytes == before.total_bytes
    &&& after.skipped_files == before.skipped_files
    &&& after.file_limit_reported == before.file_limit_reported
    &&& after.visited_entries == before.visited_entries
}

/// The components of a path with separators between them.
pub open spec fn joined_parts(parts: Seq<EntryPart>) -> Seq<char>
    decreases parts.len(),
{
    if parts.len() == 0 {
        Seq::empty()
    } else {
        let earlier = joined_parts(parts.drop_last());
        let name = match parts.last() {
            EntryPart::Normal(name) => name@,
            _ => Seq::empty(),
        };
        if earlier.len() == 0 {
            name
        } else {
            earlier.push('/') + name
        }
    }
}

/// The repository path of an entry, or why it has none: the first component that
/// is irregular or not UTF-8, or what is wrong with the path as a whole.
pub open spec fn entry_path_is(path: EntryPath, converted: Result<Seq<char>, Seq<char>>) -> bool {
    match path {
        EntryPath::Outside(reason) => converted == Err::<Seq<char>, Seq<char>>(
            "path escaped repository root: "@ + reason@,
        ),
        EntryPath::Below(parts) => {
            ||| exists|k: int|
                {
                    &&& 0 <= k < parts@.len()
                    &&& forall|i: int| 0 <= i < k ==> (#[trigger] parts@[i]) is Normal
                    &&& match #[trigger] parts@[k] {
                        EntryPart::Normal(_) => false,
                        EntryPart::Undecodable => converted == Err::<Seq<char>, Seq<char>>(
                            "path is not valid UTF-8"@,
                        ),
                        EntryPart::Irregular => converted == Err::<Seq<char>, Seq<char>>(
                            "path contains a non-normal component"@,
                        ),
                    }
                }
            ||| {
                &&& forall|i: int| 0 <= i < parts@.len() ==> (#[trigger] parts@[i]) is Normal
                &&& match converted {
                    Ok(text) => text == joined_parts(parts@) && path::canonical(text),
                    Err(message) => exists|error: RepositoryPathError|
                        #[trigger] path::refused_with(joined_parts(parts@), error) && message
                            == error.message_text(),
                }
            }
        },
    }
}

/// Converts the path of an entry into a repository path.
pub fn to_repository_path(path: &EntryPath) -> (converted: Result<RepositoryPath, String>)
    ensures
        match converted {
            Ok(found) => entry_path_is(*path, Ok(found@)),
            Err(message) => entry_path_is(*path, Err(message@)),
        },
{
    let parts = match path {
        EntryPath::Outside(reason) => {
            let mut message = "path escaped repository root: ".to_owned();
            message.push_str(reason.as_str());
            return Err(message);
        },
        EntryPath::Below(parts) => parts,
    };
    let mut normalized = String::new();
    let mut index: usize = 0;
    while index < parts.len()
        invariant
            index <= parts@.len(),
            *path == EntryPath::Below(*parts),
            forall|i: int| 0 <= i < index ==> (#[trigger] parts@[i]) is Normal,
            normalized@ == joined_parts(parts@.take(index as int)),
        decreases parts@.len() - index,
    {
        assert(parts@.take(index as int + 1).drop_last() =~= parts@.take(index as int));
        match &parts[index] {
            EntryPart::Irregular => {
                assert(parts@[index as int] is Irregular);
                return Err("path contains a non-normal component".to_owned());
            },
            EntryPart::Undecodable => {
                assert(parts@[index as int] is Undecodable);
                return Err("path is not valid UTF-8".to_owned());
            },
            EntryPart::Normal(name) => {
                if !normalized.as_str().is_empty() {
                    normalized.push('/');
                }
                normalized.push_str(name.as_str());
            },
        }
        index = index + 1;
        assert(normalized@ =~= joined_parts(parts@.take(index as int)));
    }
    assert(parts@.take(parts@.len() as int) =~= parts@);
    match RepositoryPath::new(normalized) {
        Ok(found) => Ok(found),
        Err(error) => {
            assert(path::refused_with(joined_parts(parts@), error));
            Err(error.to_string())
        },
    }
}

/// The last component of a path.
pub open spec fn file_name(path: Seq<char>) -> Seq<char> {
    text::split_on(path, '/').last()
}

/// The index of the last dot of a name, or -1.
pub open spec fn last_dot(name: Seq<char>) -> int
    decreases name.len(),
{
    if name.len() == 0 {
        -1
    } else if name.last() == '.' {
        name.len() - 1
    } else {
        last_dot(name.drop_last())
    }
}

/// What stands behind the last dot of a name, unless that dot starts the name.
pub open spec fn extension(name: Seq<char>) -> Option<Seq<char>> {
    if last_dot(name) <= 0 {
        None
    } else {
        Some(name.skip(last_dot(name) + 1))
    }
}

/// Equality that ignores the case of ASCII letters.
pub open spec fn same_ignoring_case(left: Seq<char>, right: Seq<char>) -> bool {
    &&& left.len() == right.len()
    &&& forall|i: int|
        0 <= i < left.len() ==> text::ascii_lower(#[trigger] left[i]) == text::ascii_lower(
            right[i],
        )
}

/// The language of a source file by the extension of its name.
pub open spec fn path_language(path: Seq<char>) -> Option<Language> {
    match extension(file_name(path)) {
        None => None,
        Some(extension) => if same_ignoring_case(extension, seq!['r', 's']) {
            Some(Language::Rust)
        } else if same_ignoring_case(extension, seq!['p', 'y']) || same_ignoring_case(
            extension,
            seq!['p', 'y', 'i'],
        ) {
            Some(Language::Python)
        } else {
            None
        },
    }
}

proof fn lemma_last_dot(name: Seq<char>)
    ensures
        -1 <= last_dot(name) < name.len(),
        last_dot(name) >= 0 ==> name[last_dot(name)] == '.',
        forall|i: int| last_dot(name) < i < name.len() ==> #[trigger] name[i] != '.',
    decreases name.len(),
{
    if name.len() > 0 && name.last() != '.' {
        lemma_last_dot(name.drop_last());
        assert forall|i: int| last_dot(name) < i < name.len() implies #[trigger] name[i] != '.' by {
            if i < name.len() - 1 {
                assert(name[i] == name.drop_last()[i]);
            }
        }
    }
}

fn equals_ignoring_case(left: &[char], right: &[char]) -> (same: bool)
    ensures
        same == same_ignoring_case(left@, right@),
{
    if left.len() != right.len() {
        return false;
    }
    let mut index: usize = 0;
    while index < left.len()
        invariant
            index <= left@.len(),
            left@.len() == right@.len(),
            forall|i: int|
                0 <= i < index ==> text::ascii_lower(#[trigger] left@[i]) == text::ascii_lower(
                    right@[i],
                ),
        decreases left@.len() - index,
    {
        if text::ascii_lower_char(left[index]) != text::ascii_lower_char(right[index]) {
            assert(text::ascii_lower(left@[index as int]) != text::ascii_lower(
                right@[index as int],
            ));
            return false;
        }
        index = index + 1;
    }
    true
}

/// The extension of the last component of a path.
fn extension_of(path: &[char]) -> (found: Option<Vec<char>>)
    ensures
        match found {
            Some(chars) => extension(file_name(path@)) == Some(chars@),
            None => extension(file_name(path@)) is None,
        },
{
    let parts = text::split_chars(path, '/');
    proof {
        text::lemma_split_ends(path@, '/');
    }
    assert(text::slice_views(parts@).len() == parts@.len());
    let name = parts[parts.len() - 1];
    assert(name@ == text::slice_views(parts@)[parts@.len() - 1]);
    let mut end: usize = name.len();
    while end > 0 && name[end - 1] != '.'
        invariant
            end <= name@.len(),
            forall|i: int| end <= i < name@.len() ==> #[trigger] name@[i] != '.',
        decreases end,
    {
        end = end - 1;
    }
    proof {
        lemma_last_dot(name@);
        let dot = last_dot(name@);
        if dot < end - 1 {
            assert(name@[end - 1] != '.');
        } else if dot > end - 1 {
            assert(name@[dot] != '.');
        }
    }
    if end <= 1 {
        return None;
    }
    let rest = slice_subrange(name, end, name.len());
    assert(rest@ =~= name@.skip(end as int));
    Some(vstd::slice::slice_to_vec(rest))
}

/// The language of a source file by the extension of its name, whatever its case.
pub fn language_for_path(path: &RepositoryPath) -> (language: Option<Language>)
    ensures
        language == path_language(path@),
{
    let chars = text::chars_of(path.as_str());
    match extension_of(chars.as_slice()) {
        None => None,
        Some(extension) => {
            let rust = text::chars_of("rs");
            let python = text::chars_of("py");
            let stub = text::chars_of("pyi");
            proof {
                reveal_strlit("rs");
                reveal_strlit("py");
                reveal_strlit("pyi");
                assert("rs"@ =~= seq!['r', 's']);
                assert("py"@ =~= seq!['p', 'y']);
                assert("pyi"@ =~= seq!['p', 'y', 'i']);
            }
            if equals_ignoring_case(extension.as_slice(), rust.as_slice()) {
                Some(Language::Rust)
            } else if equals_ignoring_case(extension.as_slice(), python.as_slice())
                || equals_ignoring_case(extension.as_slice(), stub.as_slice()) {
                Some(Language::Python)
            } else {
                None
            }
        },
    }
}

/// How many bytes to read next, given what has been read, so that one byte more
/// than the limit can be told apart from the limit; 0 ends the reading.
pub open spec fn next_read(max_bytes: u64, read: int, chunk: int) -> int {
    let allowed = if max_bytes < u64::MAX {
        max_bytes + 1
    } else {
        max_bytes as int
    };
    if read >= allowed {
        0
    } else if allowed - read < chunk {
        allowed - read
    } else {
        chunk
    }
}

pub fn read_limit(max_bytes: u64, read: usize, chunk: usize) -> (limit: usize)
    ensures
        limit == next_read(max_bytes, read as int, chunk as int),
{
    let remaining: u64 = max_bytes.saturating_add(1).saturating_sub(read as u64);
    if remaining < chunk as u64 {
        remaining as usize
    } else {
        chunk
    }
}

fn has_nul(bytes: &Vec<u8>, count: usize) -> (found: bool)
    requires
        count <= bytes@.len(),
    ensures
        found == exists|i: int| 0 <= i < count && #[trigger] bytes@[i] == 0,
{
    let mut index: usize = 0;
    while index < count
        invariant
            index <= count <= bytes@.len(),
            forall|i: int| 0 <= i < index ==> #[trigger] bytes@[i] != 0,
        decreases count - index,
    {
        if bytes[index] == 0 {
            assert(bytes@[index as int] == 0);
            return true;
        }
        index = index + 1;
    }
    false
}

/// The message of a walk error.
pub open spec fn walk_message(io_kind: Option<String>) -> Seq<char> {
    match io_kind {
        Some(kind) => "repository traversal I/O error: "@ + kind@,
        None => "repository traversal or ignore-rule error"@,
    }
}

/// What an entry of the walk leads to.
pub open spec fn entry_step(
    config: ScanConfig,
    before: ScanState,
    event: WalkEvent,
    after: ScanState,
    action: EntryAction,
) -> bool {
    if before.visited_entries >= config.max_entries {
        &&& action is Stop
        &&& warned(
            before,
            after,
            None,
            "entry_limit_reached"@,
            "repository traversal entry limit is "@ + text::decimal(config.max_entries as nat),
        )
    } else {
        let seen = ScanState { visited_entries: (before.visited_entries + 1) as usize, ..before };
        match event {
            WalkEvent::Failed { path, io_kind } => {
                &&& action is Continue
                &&& warned(seen, after, path, "walk_error"@, walk_message(io_kind))
            },
            WalkEvent::Entry { depth, path, kind } => if depth == 0 {
                action is Continue && unchanged(seen, after)
            } else {
                exists|converted: Result<Seq<char>, Seq<char>>|
                    #[trigger] entry_path_is(path, converted) && match converted {
                        Err(message) => {
                            &&& action is Continue
                            &&& warned(seen, after, None, "invalid_repository_path"@, message)
                        },
                        Ok(found) => located_step(seen, found, kind, after, action),
                    }
            },
        }
    }
}

/// What an entry with a repository path leads to.
pub open spec fn located_step(
    before: ScanState,
    found: Seq<char>,
    kind: Option<EntryKind>,
    after: ScanState,
    action: EntryAction,
) -> bool {
    match kind {
        None => action is Continue && warned_at(
            before,
            after,
            found,
            "unknown_file_type"@,
            "file type could not be determined"@,
        ),
        Some(EntryKind::SymbolicLink) => action is Continue && warned_at(
            before,
            after,
            found,
            "symbolic_link"@,
            "symbolic links are not followed"@,
        ),
        Some(EntryKind::Directory) => action is Continue && unchanged(before, after),
        Some(EntryKind::Special) => action is Continue && warned_at(
            before,
            after,
            found,
            "special_file"@,
            "non-regular files are not read"@,
        ),
        Some(EntryKind::File) => match path_language(found) {
            None => action is Continue && skipped_silently(before, after),
            Some(language) => {
                &&& unchanged(before, after)
                &&& action matches EntryAction::Inspect(file) && file.path@ == found
                    && file.language == language
            },
        },
    }
}

/// A warning about the file with a path.
pub open spec fn warned_at(
    before: ScanState,
    after: ScanState,
    found: Seq<char>,
    code: Seq<char>,
    message: Seq<char>,
) -> bool {
    after.diagnostics@.len() > 0 && (after.diagnostics@.last().path matches Some(path) && path@
        == found && warned(before, after, Some(path), code, message))
}

/// What the metadata of a file leads to.
pub open spec fn metadata_step(
    config: ScanConfig,
    before: ScanState,
    file: PendingFile,
    report: MetadataReport,
    after: ScanState,
    action: MetadataAction,
) -> bool {
    match report {
        MetadataReport::Failed(reason) => {
            &&& action is Continue
            &&& warned(before, after, Some(file.path), "metadata_error"@, reason@)
        },
        MetadataReport::Found { regular, len, modified } => if !regular {
            &&& action is Continue
            &&& warned(
                before,
                after,
                Some(file.path),
                "file_changed_during_scan"@,
                "entry stopped being a regular file during scanning"@,
            )
        } else if len > config.max_file_size {
            &&& action is Continue
            &&& warned(
                before,
                after,
                Some(file.path),
                "file_too_large"@,
                "file is "@ + text::decimal(len as nat) + " bytes; limit is "@ + text::decimal(
                    config.max_file_size as nat,
                ) + " bytes"@,
            )
        } else if before.files@.len() >= config.max_files {
            &&& action is Continue
            &&& after.file_limit_reported
            &&& if before.file_limit_reported {
                skipped_silently(before, after)
            } else {
                warned(
                    ScanState { file_limit_reported: true, ..before },
                    after,
                    Some(file.path),
                    "file_limit_reached"@,
                    "repository file limit is "@ + text::decimal(config.max_files as nat),
                )
            }
        } else {
            &&& unchanged(before, after)
            &&& action == (MetadataAction::Read { file, modified })
        },
    }
}

/// Whether there is a NUL byte among the bytes that are probed.
pub open spec fn probed_binary(config: ScanConfig, bytes: Seq<u8>) -> bool {
    exists|i: int|
        0 <= i < bytes.len() && i < config.binary_probe_bytes && #[trigger] bytes[i] == 0
}

/// What the contents of a file lead to.
pub open spec fn read_step(
    config: ScanConfig,
    before: ScanState,
    file: PendingFile,
    modified: Option<(u64, u32)>,
    report: ReadReport,
    after: ScanState,
) -> bool {
    match report {
        ReadReport::Failed(reason) => warned(
            before,
            after,
            Some(file.path),
            "read_error"@,
            reason@,
        ),
        ReadReport::Bytes(bytes) => if bytes@.len() > config.max_file_size {
            warned(
                before,
                after,
                Some(file.path),
                "file_too_large"@,
                "file grew beyond the configured limit while being read"@,
            )
        } else if before.total_bytes + bytes@.len() > config.max_total_bytes {
            warned(
                before,
                after,
                Some(file.path),
                "total_size_limit_reached"@,
                "repository source byte limit is "@ + text::decimal(config.max_total_bytes as nat),
            )
        } else if probed_binary(config, bytes@) {
            warned(
                before,
                after,
                Some(file.path),
                "binary_file"@,
                "NUL byte detected in source probe"@,
            )
        } else if !vstd::utf8::valid_utf8(bytes@) {
            warned(
                before,
                after,
                Some(file.path),
                "binary_file"@,
                "source is not valid UTF-8: "@ + text::utf8_error_text(bytes@),
            )
        } else {
            &&& after.files@.len() == before.files@.len() + 1
            &&& after.files@.drop_last() == before.files@
            &&& after.files@.last().path == file.path
            &&& after.files@.last().language == file.language
            &&& after.files@.last().modified == modified
            &&& vstd::utf8::encode_utf8(after.files@.last().source@) == bytes@
            &&& after.total_bytes == before.total_bytes + bytes@.len()
            &&& after.diagnostics@ == before.diagnostics@
            &&& after.skipped_files == before.skipped_files
            &&& after.file_limit_reported == before.file_limit_reported
            &&& after.visited_entries == before.visited_entries
        },
    }
}

impl ScanState {
    /// A scan keeps within its limits: it holds no more files than allowed, none of
    /// them larger than allowed or binary, the total is the size of their sources and
    /// no larger than allowed, and everything that is reported is counted as skipped.
    pub open spec fn within(self, config: ScanConfig) -> bool {
        &&& self.files@.len() <= config.max_files
        &&& sources_within(self.files@, config)
        &&& self.total_bytes == source_bytes(self.files@)
        &&& self.total_bytes <= config.max_total_bytes
        &&& self.diagnostics@.len() <= self.skipped_files || self.skipped_files == u64::MAX
    }

    /// A scan that has met nothing yet.
    pub fn start() -> (state: ScanState)
        ensures
            state.files@ == Seq::<ScannedFile>::empty(),
            state.diagnostics@ == Seq::<FileDiagnostic>::empty(),
            state.skipped_files == 0,
            state.total_bytes == 0,
            !state.file_limit_reported,
            state.visited_entries == 0,
            forall|config: ScanConfig| #[trigger] state.within(config),
    {
        ScanState {
            files: Vec::new(),
            diagnostics: Vec::new(),
            skipped_files: 0,
            total_bytes: 0,
            file_limit_reported: false,
            visited_entries: 0,
        }
    }

    fn warn(&mut self, path: Option<RepositoryPath>, code: &str, message: String)
        ensures
            warned(*old(self), *final(self), path, code@, message@),
    {
        self.skipped_files = self.skipped_files.saturating_add(1);
        self.diagnostics.push(
            FileDiagnostic::new(
                path,
                DiagnosticStage::Scan,
                DiagnosticSeverity::Warning,
                code.to_owned(),
                message,
            ),
        );
        assert(self.diagnostics@.drop_last() =~= old(self).diagnostics@);
    }

    /// Takes note of an entry of the walk and says what to do next.
    pub fn on_entry(&mut self, config: &ScanConfig, event: WalkEvent) -> (action: EntryAction)
        ensures
            entry_step(*config, *old(self), event, *final(self), action),
    {
        if self.visited_entries >= config.max_entries {
            let mut message = "repository traversal entry limit is ".to_owned();
            text::push_decimal(&mut message, config.max_entries as u64);
            self.warn(None, "entry_limit_reached", message);
            return EntryAction::Stop;
        }
        self.visited_entries = self.visited_entries + 1;
        match event {
            WalkEvent::Failed { path, io_kind } => {
                let message = match &io_kind {
                    Some(kind) => {
                        let mut message = "repository traversal I/O error: ".to_owned();
                        message.push_str(kind.as_str());
                        message
                    },
                    None => "repository traversal or ignore-rule error".to_owned(),
                };
                self.warn(path, "walk_error", message);
                EntryAction::Continue
            },
            WalkEvent::Entry { depth, path, kind } => {
                if depth == 0 {
                    return EntryAction::Continue;
                }
                match to_repository_path(&path) {
                    Err(message) => {
                        self.warn(None, "invalid_repository_path", message);
                        assert(entry_path_is(path, Err(message@)));
                        EntryAction::Continue
                    },
                    Ok(found) => {
                        assert(entry_path_is(path, Ok(found@)));
                        self.on_located(found, kind)
                    },
                }
            },
        }
    }

    fn on_located(&mut self, found: RepositoryPath, kind: Option<EntryKind>) -> (action: EntryAction)
        ensures
            located_step(*old(self), found@, kind, *final(self), action),
    {
        match kind {
            None => {
                self.warn(
                    Some(found),
                    "unknown_file_type",
                    "file type could not be determined".to_owned(),
                );
                EntryAction::Continue
            },
            Some(EntryKind::SymbolicLink) => {
                self.warn(
                    Some(found),
                    "symbolic_link",
                    "symbolic links are not followed".to_owned(),
                );
                EntryAction::Continue
            },
            Some(EntryKind::Directory) => EntryAction::Continue,
            Some(EntryKind::Special) => {
                self.warn(
                    Some(found),
                    "special_file",
                    "non-regular files are not read".to_owned(),
                );
                EntryAction::Continue
            },
            Some(EntryKind::File) => match language_for_path(&found) {
                None => {
                    self.skipped_files = self.skipped_files.saturating_add(1);
                    EntryAction::Continue
                },
                Some(language) => EntryAction::Inspect(PendingFile { path: found, language }),
            },
        }
    }

    /// Takes note of the metadata of a file and says what to do next.
    pub fn on_metadata(
        &mut self,
        config: &ScanConfig,
        file: PendingFile,
        report: MetadataReport,
    ) -> (action: MetadataAction)
        ensures
            metadata_step(*config, *old(self), file, report, *final(self), action),
    {
        match report {
            MetadataReport::Failed(reason) => {
                self.warn(Some(file.path), "metadata_error", reason);
                MetadataAction::Continue
            },
            MetadataReport::Found { regular, len, modified } => {
                if !regular {
                    self.warn(
                        Some(file.path),
                        "file_changed_during_scan",
                        "entry stopped being a regular file during scanning".to_owned(),
                    );
                    return MetadataAction::Continue;
                }
                if len > config.max_file_size {
                    let mut message = "file is ".to_owned();
                    text::push_decimal(&mut message, len);
                    message.push_str(" bytes; limit is ");
                    text::push_decimal(&mut message, config.max_file_size);
                    message.push_str(" bytes");
                    self.warn(Some(file.path), "file_too_large", message);
                    return MetadataAction::Continue;
                }
                if self.files.len() >= config.max_files {
                    if self.file_limit_reported {
                        self.skipped_files = self.skipped_files.saturating_add(1);
                    } else {
                        self.file_limit_reported = true;
                        let mut message = "repository file limit is ".to_owned();
                        text::push_decimal(&mut message, config.max_files as u64);
                        self.warn(Some(file.path), "file_limit_reached", message);
                    }
                    return MetadataAction::Continue;
                }
                MetadataAction::Read { file, modified }
            },
        }
    }

    /// Takes note of the contents of a file.
    pub fn on_read(
        &mut self,
        config: &ScanConfig,
        file: PendingFile,
        modified: Option<(u64, u32)>,
        report: ReadReport,
    )
        ensures
            read_step(*config, *old(self), file, modified, report, *final(self)),
    {
        let bytes = match report {
            ReadReport::Failed(reason) => {
                self.warn(Some(file.path), "read_error", reason);
                return ;
            },
            ReadReport::Bytes(bytes) => bytes,
        };
        if bytes.len() as u64 > config.max_file_size {
            self.warn(
                Some(file.path),
                "file_too_large",
                "file grew beyond the configured limit while being read".to_owned(),
            );
            return ;
        }
        let byte_count: u64 = bytes.len() as u64;
        let over = match self.total_bytes.checked_add(byte_count) {
            Some(total) => total > config.max_total_bytes,
            None => true,
        };
        if over {
            let mut message = "repository source byte limit is ".to_owned();
            text::push_decimal(&mut message, config.max_total_bytes);
            self.warn(Some(file.path), "total_size_limit_reached", message);
            return ;
        }
        let probe: usize = if bytes.len() < config.binary_probe_bytes {
            bytes.len()
        } else {
            config.binary_probe_bytes
        };
        let binary = has_nul(&bytes, probe);
        assert(binary == probed_binary(*config, bytes@)) by {
            if binary {
                let i = choose|i: int| 0 <= i < probe && #[trigger] bytes@[i] == 0;
                assert(bytes@[i] == 0);
            }
        }
        if binary {
            self.warn(
                Some(file.path),
                "binary_file",
                "NUL byte detected in source probe".to_owned(),
            );
            return ;
        }
        match text::decode_source(bytes) {
            Err(error) => {
                let mut message = "source is not valid UTF-8: ".to_owned();
                message.push_str(error.as_str());
                self.warn(Some(file.path), "binary_file", message);
            },
            Ok(source) => {
                self.total_bytes = self.total_bytes + byte_count;
                self.files.push(
                    ScannedFile { path: file.path, language: file.language, source, modified },
                );
                assert(self.files@.drop_last() =~= old(self).files@);
            },
        }
    }

    /// Ends a scan: the files in the order of their paths, the diagnostics in
    /// order, and the fingerprint of it all.
    pub fn finish(self, config: &ScanConfig) -> (result: ScanResult)
        ensures
            result.files@ == sort::stable_sorted(self.files@),
            result.diagnostics@ == sort::stable_sorted(self.diagnostics@),
            result.skipped_files == self.skipped_files,
            result.fingerprint@ == digest::hex_of_bytes(
                digest::sha256_digest(scan_bytes(*config, result.files@)),
            ),
    {
        let mut files = self.files;
        let mut diagnostics = self.diagnostics;
        sort::stable_sort(&mut files);
        sort::stable_sort(&mut diagnostics);
        let fingerprint = fingerprint(config, &files);
        ScanResult { files, skipped_files: self.skipped_files, diagnostics, fingerprint }
    }
}

/// The bytes of the limits of a scan.
pub open spec fn config_bytes(config: ScanConfig) -> Seq<u8> {
    vstd::utf8::encode_utf8("codeatlas-scan-fingerprint-v1"@) + digest::be_bytes(
        config.max_file_size as nat,
        8,
    ) + digest::be_bytes(config.max_total_bytes as nat, 8) + digest::be_bytes(
        config.max_files as nat,
        8,
    ) + digest::be_bytes(config.max_entries as nat, 8) + digest::be_bytes(
        config.max_depth as nat,
        8,
    ) + digest::be_bytes(config.binary_probe_bytes as nat, 8)
}

/// A name added to a list of names in order, unless it is listed already.
pub open spec fn with_listed(listed: Seq<Seq<char>>, name: Seq<char>) -> Seq<Seq<char>>
    decreases listed.len(),
{
    if listed.len() == 0 || text::before(name, listed[0]) {
        seq![name] + listed
    } else if listed[0] == name {
        listed
    } else {
        seq![listed[0]] + with_listed(listed.drop_first(), name)
    }
}

/// Names in order, each once.
pub open spec fn listed_names(names: Seq<Seq<char>>) -> Seq<Seq<char>>
    decreases names.len(),
{
    if names.len() == 0 {
        Seq::empty()
    } else {
        with_listed(listed_names(names.drop_last()), names.last())
    }
}

proof fn lemma_with_listed_at(listed: Seq<Seq<char>>, name: Seq<char>, at: int)
    requires
        0 <= at <= listed.len(),
        forall|i: int|
            0 <= i < at ==> #[trigger] listed[i] != name && !text::before(name, listed[i]),
        at < listed.len() ==> listed[at] == name || text::before(name, listed[at]),
    ensures
        with_listed(listed, name) == if at < listed.len() && listed[at] == name {
            listed
        } else {
            listed.insert(at, name)
        },
    decreases listed.len(),
{
    text::law_text_order(name, name, name);
    if at == 0 {
        assert(seq![name] + listed =~= listed.insert(0, name));
    } else {
        let rest = listed.drop_first();
        assert(listed[0] != name && !text::before(name, listed[0]));
        assert forall|i: int| 0 <= i < at - 1 implies #[trigger] rest[i] != name && !text::before(
            name,
            rest[i],
        ) by {
            assert(rest[i] == listed[i + 1]);
        }
        lemma_with_listed_at(rest, name, at - 1);
        assert(seq![listed[0]] + rest =~= listed);
        assert(seq![listed[0]] + rest.insert(at - 1, name) =~= listed.insert(at, name));
    }
}

/// Lists names in order, each once.
fn list_names(names: &Vec<String>) -> (listed: Vec<String>)
    ensures
        wrap::string_views(listed@) == listed_names(wrap::string_views(names@)),
{
    let mut listed: Vec<String> = Vec::new();
    let mut index: usize = 0;
    assert(wrap::string_views(listed@) =~= Seq::<Seq<char>>::empty());
    while index < names.len()
        invariant
            index <= names@.len(),
            wrap::string_views(listed@) == listed_names(
                wrap::string_views(names@).take(index as int),
            ),
        decreases names@.len() - index,
    {
        let name = names[index].as_str();
        let ghost before = wrap::string_views(listed@);
        let mut at: usize = 0;
        while at < listed.len() && !text::same_text(listed[at].as_str(), name)
            && !text::text_before(name, listed[at].as_str())
            invariant
                at <= listed@.len(),
                before == wrap::string_views(listed@),
                forall|i: int|
                    0 <= i < at ==> #[trigger] before[i] != name@ && !text::before(
                        name@,
                        before[i],
                    ),
            decreases listed@.len() - at,
        {
            assert(before[at as int] == listed@[at as int]@);
            at = at + 1;
        }
        proof {
            if at < listed@.len() {
                assert(before[at as int] == listed@[at as int]@);
            }
            lemma_with_listed_at(before, name@, at as int);
            let all = wrap::string_views(names@);
            assert(all.take(index as int + 1).drop_last() =~= all.take(index as int));
        }
        if at == listed.len() || !text::same_text(listed[at].as_str(), name) {
            listed.insert(at, name.to_owned());
            assert(wrap::string_views(listed@) =~= before.insert(at as int, name@));
        }
        index = index + 1;
    }
    assert(wrap::string_views(names@).take(names@.len() as int) =~= wrap::string_views(names@));
    listed
}

proof fn lemma_with_listed(listed: Seq<Seq<char>>, name: Seq<char>)
    requires
        text::ascending(listed),
    ensures
        text::ascending(with_listed(listed, name)),
        forall|other: Seq<char>|
            #[trigger] with_listed(listed, name).contains(other) == (listed.contains(other) || other
                == name),
    decreases listed.len(),
{
    let more = with_listed(listed, name);
    if listed.len() == 0 || text::before(name, listed[0]) {
        assert forall|i: int, j: int| 0 <= i < j < more.len() implies text::before(
            #[trigger] more[i],
            #[trigger] more[j],
        ) by {
            if i == 0 && j > 1 {
                text::law_text_order(name, listed[0], listed[j - 1]);
            }
        }
        assert forall|other: Seq<char>| more.contains(other) == (listed.contains(other) || other
            == name) by {
            if other == name {
                assert(more[0] == name);
            }
            if listed.contains(other) {
                let i = choose|i: int| 0 <= i < listed.len() && listed[i] == other;
                assert(more[i + 1] == other);
            }
        }
    } else if listed[0] != name {
        let rest = listed.drop_first();
        let tail = with_listed(rest, name);
        assert forall|i: int, j: int| 0 <= i < j < rest.len() implies text::before(
            #[trigger] rest[i],
            #[trigger] rest[j],
        ) by {
            assert(text::before(listed[i + 1], listed[j + 1]));
        }
        lemma_with_listed(rest, name);
        text::law_text_order(name, listed[0], name);
        text::law_text_order(listed[0], name, listed[0]);
        assert forall|j: int| 0 <= j < tail.len() implies text::before(
            listed[0],
            #[trigger] tail[j],
        ) by {
            assert(tail.contains(tail[j]));
            if tail[j] != name {
                assert(rest.contains(tail[j]));
                let i = choose|i: int| 0 <= i < rest.len() && rest[i] == tail[j];
                assert(text::before(listed[0], listed[i + 1]));
            }
        }
        assert forall|i: int, j: int| 0 <= i < j < more.len() implies text::before(
            #[trigger] more[i],
            #[trigger] more[j],
        ) by {
            if i == 0 {
                assert(text::before(listed[0], tail[j - 1]));
            } else {
                assert(text::before(tail[i - 1], tail[j - 1]));
            }
        }
        assert forall|other: Seq<char>| more.contains(other) == (listed.contains(other) || other
            == name) by {
            if more.contains(other) {
                let i = choose|i: int| 0 <= i < more.len() && more[i] == other;
                if i == 0 {
                    assert(listed[0] == other);
                } else {
                    assert(tail[i - 1] == other);
                    assert(tail.contains(other));
                    if rest.contains(other) {
                        let k = choose|k: int| 0 <= k < rest.len() && rest[k] == other;
                        assert(listed[k + 1] == other);
                    }
                }
            }
            if listed.contains(other) || other == name {
                if other == name {
                    assert(tail.contains(name));
                } else {
                    let k = choose|k: int| 0 <= k < listed.len() && listed[k] == other;
                    if k == 0 {
                        assert(more[0] == other);
                    } else {
                        assert(rest[k - 1] == other);
                        assert(tail.contains(other));
                    }
                }
                if tail.contains(other) {
                    let k = choose|k: int| 0 <= k < tail.len() && tail[k] == other;
                    assert(more[k + 1] == other);
                }
            }
        }
    } else {
        assert(listed[0] == name);
    }
}

proof fn lemma_listed_names(names: Seq<Seq<char>>)
    ensures
        text::ascending(listed_names(names)),
        forall|other: Seq<char>| listed_names(names).contains(other) == names.contains(other),
    decreases names.len(),
{
    if names.len() > 0 {
        let rest = names.drop_last();
        lemma_listed_names(rest);
        lemma_with_listed(listed_names(rest), names.last());
        assert forall|other: Seq<char>| listed_names(names).contains(other) == names.contains(
            other,
        ) by {
            if names.contains(other) {
                let i = choose|i: int| 0 <= i < names.len() && names[i] == other;
                if i < rest.len() {
                    assert(rest[i] == other);
                }
            }
            if rest.contains(other) {
                let i = choose|i: int| 0 <= i < rest.len() && rest[i] == other;
                assert(names[i] == other);
            }
            assert(names[names.len() - 1] == names.last());
        }
    }
}

/// The excluded names are a set: two configurations that exclude the same names, and
/// are otherwise the same, give the same fingerprint.
pub proof fn law_excluded_names_are_a_set(
    first: ScanConfig,
    second: ScanConfig,
    files: Seq<ScannedFile>,
)
    requires
        config_bytes(first) == config_bytes(second),
        forall|name: Seq<char>| first.excluded(name) == second.excluded(name),
    ensures
        scan_bytes(first, files) == scan_bytes(second, files),
{
    let a = wrap::string_views(first.excluded_directories@);
    let b = wrap::string_views(second.excluded_directories@);
    lemma_listed_names(a);
    lemma_listed_names(b);
    assert forall|name: Seq<char>| listed_names(a).contains(name) == listed_names(b).contains(
        name,
    ) by {
        lemma_excluded(first, name);
        lemma_excluded(second, name);
    }
    text::lemma_ascending_is_unique(listed_names(a), listed_names(b));
}

proof fn lemma_excluded(config: ScanConfig, name: Seq<char>)
    ensures
        wrap::string_views(config.excluded_directories@).contains(name) == config.excluded(name),
{
    let names = config.excluded_directories@;
    let views = wrap::string_views(names);
    if views.contains(name) {
        let i = choose|i: int| 0 <= i < views.len() && views[i] == name;
        assert(names[i]@ == name);
    }
    if config.excluded(name) {
        let i = choose|i: int| 0 <= i < names.len() && (#[trigger] names[i])@ == name;
        assert(views[i] == name);
    }
}

/// Each text behind its length.
pub open spec fn with_names(bytes: Seq<u8>, names: Seq<Seq<char>>) -> Seq<u8>
    decreases names.len(),
{
    if names.len() == 0 {
        bytes
    } else {
        with_names(bytes, names.drop_last()) + digest::component(names.last())
    }
}

/// A file with its path, language, modification time and source.
pub open spec fn with_file(bytes: Seq<u8>, file: ScannedFile) -> Seq<u8> {
    let named = bytes + digest::component(file.path@) + digest::component(file.language.key());
    (match file.modified {
        Some((seconds, nanos)) => named.push(1u8) + digest::be_bytes(seconds as nat, 8)
            + digest::be_bytes(nanos as nat, 8),
        None => named.push(0u8),
    }) + digest::component(file.source@)
}

pub open spec fn with_files(bytes: Seq<u8>, files: Seq<ScannedFile>) -> Seq<u8>
    decreases files.len(),
{
    if files.len() == 0 {
        bytes
    } else {
        with_file(with_files(bytes, files.drop_last()), files.last())
    }
}

/// The bytes that the fingerprint of a scan is taken of: the limits, the excluded
/// directories and the files.
pub open spec fn scan_bytes(config: ScanConfig, files: Seq<ScannedFile>) -> Seq<u8> {
    with_files(
        with_names(
            config_bytes(config),
            listed_names(wrap::string_views(config.excluded_directories@)),
        ),
        files,
    )
}

/// Builds the bytes that the fingerprint of a scan is taken of.
pub fn fingerprint_bytes(config: &ScanConfig, files: &Vec<ScannedFile>) -> (bytes: Vec<u8>)
    ensures
        bytes@ == scan_bytes(*config, files@),
{
    let mut bytes: Vec<u8> = Vec::new();
    digest::push_bytes(&mut bytes, "codeatlas-scan-fingerprint-v1".as_bytes());
    assert(bytes@ =~= vstd::utf8::encode_utf8("codeatlas-scan-fingerprint-v1"@));
    digest::push_be(&mut bytes, config.max_file_size, 8);
    digest::push_be(&mut bytes, config.max_total_bytes, 8);
    digest::push_be(&mut bytes, config.max_files as u64, 8);
    digest::push_be(&mut bytes, config.max_entries as u64, 8);
    digest::push_be(&mut bytes, config.max_depth as u64, 8);
    digest::push_be(&mut bytes, config.binary_probe_bytes as u64, 8);
    let ghost head = bytes@;
    let names = list_names(&config.excluded_directories);
    let ghost listed = wrap::string_views(names@);
    let mut index: usize = 0;
    while index < names.len()
        invariant
            index <= names@.len(),
            listed == wrap::string_views(names@),
            bytes@ == with_names(head, listed.take(index as int)),
        decreases names@.len() - index,
    {
        assert(listed.take(index as int + 1).drop_last() =~= listed.take(index as int));
        assert(listed[index as int] == names@[index as int]@);
        digest::push_component(&mut bytes, names[index].as_str());
        index = index + 1;
    }
    assert(listed.take(names@.len() as int) =~= listed);
    let ghost named = bytes@;
    let mut position: usize = 0;
    while position < files.len()
        invariant
            position <= files@.len(),
            bytes@ == with_files(named, files@.take(position as int)),
        decreases files@.len() - position,
    {
        assert(files@.take(position as int + 1).drop_last() =~= files@.take(position as int));
        let file = &files[position];
        digest::push_component(&mut bytes, file.path.as_str());
        let key = file.language.key_text();
        digest::push_component(&mut bytes, key.as_str());
        match file.modified {
            Some((seconds, nanos)) => {
                bytes.push(1);
                digest::push_be(&mut bytes, seconds, 8);
                digest::push_be(&mut bytes, nanos as u64, 8);
            },
            None => {
                bytes.push(0);
            },
        }
        digest::push_component(&mut bytes, file.source.as_str());
        position = position + 1;
    }
    assert(files@.take(files@.len() as int) =~= files@);
    bytes
}

fn fingerprint(config: &ScanConfig, files: &Vec<ScannedFile>) -> (text: String)
    ensures
        text@ == digest::hex_of_bytes(digest::sha256_digest(scan_bytes(*config, files@))),
{
    let bytes = fingerprint_bytes(config, files);
    let hash = digest::sha256(bytes.as_slice());
    digest::hex_of(hash.as_slice())
}

proof fn lemma_source_bytes_push(before: Seq<ScannedFile>, after: Seq<ScannedFile>)
    requires
        after.len() == before.len() + 1,
        after.drop_last() == before,
    ensures
        source_bytes(after) == source_bytes(before) + vstd::utf8::encode_utf8(
            after.last().source@,
        ).len(),
{
}

/// An entry of the walk keeps a scan within its limits.
pub proof fn law_entry_keeps_within_limits(
    config: ScanConfig,
    before: ScanState,
    event: WalkEvent,
    after: ScanState,
    action: EntryAction,
)
    requires
        before.within(config),
        entry_step(config, before, event, after, action),
    ensures
        after.within(config),
{
}

/// The metadata of a file keeps a scan within its limits.
pub proof fn law_metadata_keeps_within_limits(
    config: ScanConfig,
    before: ScanState,
    file: PendingFile,
    report: MetadataReport,
    after: ScanState,
    action: MetadataAction,
)
    requires
        before.within(config),
        metadata_step(config, before, file, report, after, action),
    ensures
        after.within(config),
{
}

/// The contents of a file for which there is room keep a scan within its limits.
pub proof fn law_read_keeps_within_limits(
    config: ScanConfig,
    before: ScanState,
    file: PendingFile,
    modified: Option<(u64, u32)>,
    report: ReadReport,
    after: ScanState,
)
    requires
        before.within(config),
        before.files@.len() < config.max_files,
        read_step(config, before, file, modified, report, after),
    ensures
        after.within(config),
{
    if after.files@.len() == before.files@.len() + 1 && after.files@.drop_last()
        == before.files@ {
        lemma_source_bytes_push(before.files@, after.files@);
        assert forall|i: int| 0 <= i < after.files@.len() implies {
            let bytes = vstd::utf8::encode_utf8((#[trigger] after.files@[i]).source@);
            bytes.len() <= config.max_file_size && !probed_binary(config, bytes)
        } by {
            if i < before.files@.len() {
                assert(after.files@[i] == before.files@[i]);
            }
        }
    }
}

spec fn adding_bytes() -> spec_fn(ScannedFile, nat) -> nat {
    |file: ScannedFile, sum: nat| (sum + vstd::utf8::encode_utf8(file.source@).len()) as nat
}

proof fn lemma_source_bytes_folded(files: Seq<ScannedFile>, start: nat)
    ensures
        files.fold_right(adding_bytes(), start) == source_bytes(files) + start,
    decreases files.len(),
{
    if files.len() > 0 {
        lemma_source_bytes_folded(files.drop_last(), adding_bytes()(files.last(), start));
    }
}

/// What a scan yields keeps within its limits as the scan itself does: no more files
/// than allowed, none of them larger than allowed or binary, and all of them together
/// no larger than allowed; and everything that is reported is counted as skipped.
pub proof fn law_scan_result_keeps_within_limits(
    config: ScanConfig,
    state: ScanState,
    result: ScanResult,
)
    requires
        state.within(config),
        result.files@ == sort::stable_sorted(state.files@),
        result.diagnostics@ == sort::stable_sorted(state.diagnostics@),
        result.skipped_files == state.skipped_files,
    ensures
        result.files@.len() <= config.max_files,
        sources_within(result.files@, config),
        source_bytes(result.files@) <= config.max_total_bytes,
        result.diagnostics@.len() <= result.skipped_files || result.skipped_files == u64::MAX,
{
    let (given, listed) = (state.files@, result.files@);
    if given.len() > 0 {
        sort::law_stable_sort(given, given[0]);
    }
    if state.diagnostics@.len() > 0 {
        sort::law_stable_sort(state.diagnostics@, state.diagnostics@[0]);
    }
    assert forall|i: int| 0 <= i < listed.len() implies {
        let bytes = vstd::utf8::encode_utf8((#[trigger] listed[i]).source@);
        bytes.len() <= config.max_file_size && !probed_binary(config, bytes)
    } by {
        assert(listed.contains(listed[i]));
        vstd::seq_lib::to_multiset_contains(listed, listed[i]);
        vstd::seq_lib::to_multiset_contains(given, listed[i]);
        let j = choose|j: int| 0 <= j < given.len() && given[j] == listed[i];
        assert(given[j] == listed[i]);
    }
    assert(vstd::seq_lib::commutative_foldr(adding_bytes()));
    vstd::seq_lib::lemma_fold_right_permutation(given, listed, adding_bytes(), 0);
    lemma_source_bytes_folded(given, 0);
    lemma_source_bytes_folded(listed, 0);
}

/// A file is read only when the scan can still hold it.
pub proof fn law_read_leaves_room(
    config: ScanConfig,
    before: ScanState,
    file: PendingFile,
    report: MetadataReport,
    after: ScanState,
    action: MetadataAction,
)
    requires
        metadata_step(config, before, file, report, after, action),
        action is Read,
    ensures
        after.files@.len() < config.max_files,
{
}

/// Diagnostics of which every one is of the scan.
pub open spec fn of_the_scan(diagnostics: Seq<FileDiagnostic>) -> bool {
    forall|i: int|
        0 <= i < diagnostics.len() ==> (#[trigger] diagnostics[i]).stage == DiagnosticStage::Scan
}

proof fn lemma_of_the_scan_push(before: Seq<FileDiagnostic>, after: Seq<FileDiagnostic>)
    requires
        of_the_scan(before),
        after.len() == before.len() + 1,
        after.drop_last() == before,
        after.last().stage == DiagnosticStage::Scan,
    ensures
        of_the_scan(after),
{
    assert forall|i: int| 0 <= i < after.len() implies (#[trigger] after[i]).stage
        == DiagnosticStage::Scan by {
        if i < before.len() {
            assert(after[i] == before[i]);
        }
    }
}

/// Whatever a scan meets, it reports nothing but diagnostics of the scan, and so it
/// does when it ends.
pub proof fn law_scan_reports_of_the_scan(
    config: ScanConfig,
    before: ScanState,
    event: WalkEvent,
    entry_action: EntryAction,
    file: PendingFile,
    metadata: MetadataReport,
    metadata_action: MetadataAction,
    modified: Option<(u64, u32)>,
    read: ReadReport,
    after: ScanState,
)
    requires
        of_the_scan(before.diagnostics@),
        entry_step(config, before, event, after, entry_action) || metadata_step(
            config,
            before,
            file,
            metadata,
            after,
            metadata_action,
        ) || read_step(config, before, file, modified, read, after),
    ensures
        of_the_scan(after.diagnostics@),
        of_the_scan(sort::stable_sorted(after.diagnostics@)),
{
    let (given, all) = (before.diagnostics@, after.diagnostics@);
    if all.len() == given.len() + 1 && all.drop_last() == given {
        lemma_of_the_scan_push(given, all);
    }
    let sorted = sort::stable_sorted(all);
    assert forall|i: int| 0 <= i < sorted.len() implies (#[trigger] sorted[i]).stage
        == DiagnosticStage::Scan by {
        sort::law_stable_sort(all, sorted[i]);
        assert(sorted.contains(sorted[i]));
        vstd::seq_lib::to_multiset_contains(sorted, sorted[i]);
        vstd::seq_lib::to_multiset_contains(all, sorted[i]);
        let j = choose|j: int| 0 <= j < all.len() && all[j] == sorted[i];
        assert(all[j].stage == DiagnosticStage::Scan);
    }
}

} // verus!
