//! Normalized paths relative to a repository root.
use crate::text;
use vstd::prelude::*;

verus! {

/// A normalized path relative to a repository root.
///
/// Persisted repository paths always use `/`, contain no `.` or `..`
/// components, and never have a leading or trailing separator.
#[derive(Debug, PartialEq, Eq, PartialOrd, Ord, Hash)]
pub struct RepositoryPath {
    value: String,
}

#[derive(Debug, Clone, PartialEq, Eq)]
pub enum RepositoryPathError {
    Empty,
    Absolute(String),
    Backslash(String),
    NulByte,
    EmptyComponent(String),
    CurrentDirectory(String),
    ParentDirectory(String),
}

impl RepositoryPathError {
    /// What the error tells a reader.
    pub open spec fn message_text(self) -> Seq<char> {
        match self {
            RepositoryPathError::Empty => "repository path must not be empty"@,
            RepositoryPathError::Absolute(value) => "repository path must be relative: "@ + value@,
            RepositoryPathError::Backslash(value) => "repository path must use forward slashes: "@
                + value@,
            RepositoryPathError::NulByte => "repository path must not contain a NUL byte"@,
            RepositoryPathError::EmptyComponent(value) => "repository path contains an empty component: "@
                + value@,
            RepositoryPathError::CurrentDirectory(value) => "repository path contains a current-directory component: "@
                + value@,
            RepositoryPathError::ParentDirectory(value) => "repository path contains a parent-directory component: "@
                + value@,
        }
    }

    pub fn to_string(&self) -> (message: String)
        ensures
            message@ == self.message_text(),
    {
        match self {
            RepositoryPathError::Empty => "repository path must not be empty".to_owned(),
            RepositoryPathError::Absolute(value) => said(
                "repository path must be relative: ",
                value,
            ),
            RepositoryPathError::Backslash(value) => said(
                "repository path must use forward slashes: ",
                value,
            ),
            RepositoryPathError::NulByte => "repository path must not contain a NUL byte".to_owned(),
            RepositoryPathError::EmptyComponent(value) => said(
                "repository path contains an empty component: ",
                value,
            ),
            RepositoryPathError::CurrentDirectory(value) => said(
                "repository path contains a current-directory component: ",
                value,
            ),
            RepositoryPathError::ParentDirectory(value) => said(
                "repository path contains a parent-directory component: ",
                value,
            ),
        }
    }
}

fn said(head: &str, value: &String) -> (sentence: String)
    ensures
        sentence@ == head@ + value@,
{
    let mut sentence = head.to_owned();
    sentence.push_str(value.as_str());
    sentence
}

/// What is wrong with one component of a path.
pub enum ComponentFault {
    Empty,
    Current,
    Parent,
}

/// An ASCII letter and a colon at the start, as in a Windows drive path.
pub open spec fn windows_prefixed(path: Seq<char>) -> bool {
    path.len() >= 2 && text::is_ascii_letter(path[0]) && path[1] == ':'
}

/// A path that starts at a root.
pub open spec fn absolute(path: Seq<char>) -> bool {
    path.len() > 0 && (path[0] == '/' || windows_prefixed(path))
}

/// The fault of a single component, if it has one.
pub open spec fn component_fault(component: Seq<char>) -> Option<ComponentFault> {
    if component.len() == 0 {
        Some(ComponentFault::Empty)
    } else if component == seq!['.'] {
        Some(ComponentFault::Current)
    } else if component == seq!['.', '.'] {
        Some(ComponentFault::Parent)
    } else {
        None
    }
}

/// Whether the first faulty component of a path has this fault.
pub open spec fn first_fault(path: Seq<char>, fault: ComponentFault) -> bool {
    let components = text::split_on(path, '/');
    exists|k: int|
        {
            &&& 0 <= k < components.len()
            &&& component_fault(#[trigger] components[k]) == Some(fault)
            &&& forall|i: int|
                0 <= i < k ==> component_fault(#[trigger] components[i]) is None
        }
}

/// The checks that come before the components are looked at.
pub open spec fn plain_relative(path: Seq<char>) -> bool {
    path.len() > 0 && !absolute(path) && !text::has_char(path, '\\') && !text::has_char(path, '\0')
}

/// The canonical repository-relative form.
pub open spec fn canonical(path: Seq<char>) -> bool {
    &&& plain_relative(path)
    &&& forall|k: int|
        0 <= k < text::split_on(path, '/').len() ==> component_fault(
            #[trigger] text::split_on(path, '/')[k],
        ) is None
}

/// Why a text is refused as a repository path.
pub open spec fn refused_with(path: Seq<char>, error: RepositoryPathError) -> bool {
    match error {
        RepositoryPathError::Empty => path.len() == 0,
        RepositoryPathError::Absolute(value) => absolute(path) && value@ == path,
        RepositoryPathError::Backslash(value) => {
            path.len() > 0 && !absolute(path) && text::has_char(path, '\\') && value@ == path
        },
        RepositoryPathError::NulByte => {
            path.len() > 0 && !absolute(path) && !text::has_char(path, '\\') && text::has_char(
                path,
                '\0',
            )
        },
        RepositoryPathError::EmptyComponent(value) => {
            plain_relative(path) && first_fault(path, ComponentFault::Empty) && value@ == path
        },
        RepositoryPathError::CurrentDirectory(value) => {
            plain_relative(path) && first_fault(path, ComponentFault::Current) && value@ == path
        },
        RepositoryPathError::ParentDirectory(value) => {
            plain_relative(path) && first_fault(path, ComponentFault::Parent) && value@ == path
        },
    }
}

impl View for RepositoryPath {
    type V = Seq<char>;

    closed spec fn view(&self) -> Seq<char> {
        self.value@
    }
}

impl Clone for RepositoryPath {
    fn clone(&self) -> (copy: RepositoryPath)
        ensures
            copy == *self,
    {
        proof {
            use_type_invariant(self);
        }
        RepositoryPath { value: self.value.clone() }
    }
}

impl RepositoryPath {
    #[verifier::type_invariant]
    spec fn holds_canonical_text(self) -> bool {
        canonical(self.value@)
    }

    /// Validates and constructs a normalized repository-relative path.
    pub fn new(value: String) -> (path: Result<RepositoryPath, RepositoryPathError>)
        ensures
            match path {
                Ok(path) => canonical(value@) && path@ == value@,
                Err(error) => refused_with(value@, error),
            },
    {
        match validate(value.as_str()) {
            Ok(()) => Ok(RepositoryPath { value }),
            Err(error) => Err(error),
        }
    }

    pub fn as_str(&self) -> (text: &str)
        ensures
            text@ == self@,
            canonical(self@),
    {
        proof {
            use_type_invariant(self);
        }
        self.value.as_str()
    }

    /// The text of the path.
    pub fn to_string(&self) -> (text: String)
        ensures
            text@ == self@,
            canonical(self@),
    {
        proof {
            use_type_invariant(self);
        }
        self.value.clone()
    }

    /// Tests whether two paths are the same.
    pub fn same(&self, other: &RepositoryPath) -> (same: bool)
        ensures
            same == (self@ == other@),
    {
        text::same_text(self.value.as_str(), other.value.as_str())
    }
}

impl core::str::FromStr for RepositoryPath {
    type Err = RepositoryPathError;

    fn from_str(value: &str) -> (path: Result<RepositoryPath, RepositoryPathError>)
        ensures
            match path {
                Ok(path) => canonical(value@) && path@ == value@,
                Err(error) => refused_with(value@, error),
            },
    {
        RepositoryPath::new(value.to_owned())
    }
}

fn validate(value: &str) -> (outcome: Result<(), RepositoryPathError>)
    ensures
        match outcome {
            Ok(()) => canonical(value@),
            Err(error) => refused_with(value@, error),
        },
{
    let chars = text::chars_of(value);
    let path = chars.as_slice();
    if path.len() == 0 {
        return Err(RepositoryPathError::Empty);
    }
    if path[0] == '/' || has_windows_prefix(path) {
        return Err(RepositoryPathError::Absolute(value.to_owned()));
    }
    if text::chars_contain(path, '\\') {
        return Err(RepositoryPathError::Backslash(value.to_owned()));
    }
    if text::chars_contain(path, '\0') {
        return Err(RepositoryPathError::NulByte);
    }
    let components = text::split_chars(path, '/');
    let ghost parts = text::split_on(value@, '/');
    let mut index: usize = 0;
    while index < components.len()
        invariant
            index <= components@.len(),
            parts == text::split_on(value@, '/'),
            text::slice_views(components@) == parts,
            plain_relative(value@),
            forall|i: int| 0 <= i < index ==> component_fault(#[trigger] parts[i]) is None,
        decreases components@.len() - index,
    {
        let component = components[index];
        assert(text::slice_views(components@)[index as int] == component@);
        if component.len() == 0 {
            assert(component_fault(parts[index as int]) == Some(ComponentFault::Empty));
            return Err(RepositoryPathError::EmptyComponent(value.to_owned()));
        }
        if component[0] == '.' && component.len() == 1 {
            assert(component@ =~= seq!['.']);
            assert(component_fault(parts[index as int]) == Some(ComponentFault::Current));
            return Err(RepositoryPathError::CurrentDirectory(value.to_owned()));
        }
        if component.len() == 2 && component[0] == '.' && component[1] == '.' {
            assert(component@ =~= seq!['.', '.']);
            assert(component_fault(parts[index as int]) == Some(ComponentFault::Parent));
            return Err(RepositoryPathError::ParentDirectory(value.to_owned()));
        }
        assert(component_fault(parts[index as int]) is None);
        index = index + 1;
    }
    Ok(())
}

fn has_windows_prefix(path: &[char]) -> (prefixed: bool)
    ensures
        prefixed == windows_prefixed(path@),
{
    path.len() >= 2 && text::is_ascii_letter_char(path[0]) && path[1] == ':'
}

/// A text is either canonical or refused, and never both.
pub proof fn law_refusal_excludes_acceptance(path: Seq<char>, error: RepositoryPathError)
    requires
        refused_with(path, error),
    ensures
        !canonical(path),
{
    let components = text::split_on(path, '/');
    if canonical(path) {
        let fault = match error {
            RepositoryPathError::EmptyComponent(_) => ComponentFault::Empty,
            RepositoryPathError::CurrentDirectory(_) => ComponentFault::Current,
            _ => ComponentFault::Parent,
        };
        assert(first_fault(path, fault));
        let k = choose|k: int|
            {
                &&& 0 <= k < components.len()
                &&& component_fault(#[trigger] components[k]) == Some(fault)
                &&& forall|i: int|
                    0 <= i < k ==> component_fault(#[trigger] components[i]) is None
            };
        assert(component_fault(components[k]) is None);
    }
}

/// A canonical path has neither a leading nor a trailing separator.
pub proof fn law_canonical_path_has_no_outer_separator(path: Seq<char>)
    requires
        canonical(path),
    ensures
        path[0] != '/',
        path.last() != '/',
{
    text::lemma_split_ends(path, '/');
    let components = text::split_on(path, '/');
    assert(component_fault(components[components.len() - 1]) is None);
}

/// The path of names, with a separator between two of them.
pub open spec fn path_of(names: Seq<Seq<char>>) -> Seq<char>
    decreases names.len(),
{
    if names.len() == 0 {
        Seq::empty()
    } else if names.len() == 1 {
        names[0]
    } else {
        path_of(names.drop_last()) + seq!['/'] + names.last()
    }
}

/// Whether a name leads on into a directory or to a file.
pub open spec fn leads_on(name: Seq<char>) -> bool {
    name.len() > 0 && name != seq!['.'] && name != seq!['.', '.']
}

pub proof fn lemma_path_of(names: Seq<Seq<char>>)
    requires
        names.len() > 0,
        forall|k: int| 0 <= k < names.len() ==> !(#[trigger] names[k]).contains('/'),
    ensures
        text::split_on(path_of(names), '/') == names,
        names[0].len() > 0 ==> path_of(names).len() > 0 && path_of(names)[0] == names[0][0],
    decreases names.len(),
{
    let last = names.len() - 1;
    let name = names[last];
    text::lemma_index_of(name, '/');
    assert(text::index_of(name, '/') >= name.len()) by {
        if text::index_of(name, '/') < name.len() {
            assert(name.contains(name[text::index_of(name, '/')]));
        }
    }
    assert(text::split_on(name, '/') =~= seq![name]);
    if last == 0 {
        assert(names =~= seq![name]);
    } else {
        let fewer = names.drop_last();
        assert forall|k: int| 0 <= k < fewer.len() implies !(#[trigger] fewer[k]).contains(
            '/',
        ) by {
            assert(fewer[k] == names[k]);
        }
        lemma_path_of(fewer);
        text::lemma_split_joined(path_of(fewer), name, '/');
        assert(names =~= fewer + seq![name]);
    }
}

/// A path of names is accepted if and only if it has neither a backslash nor a zero
/// character, begins with no drive, and every name leads on. Where a name does not, the
/// refusal tells of the first such name.
pub proof fn law_path_of_names(names: Seq<Seq<char>>)
    requires
        names.len() > 0,
        forall|k: int| 0 <= k < names.len() ==> !(#[trigger] names[k]).contains('/'),
    ensures
        ({
            let path = path_of(names);
            &&& canonical(path) <==> {
                &&& forall|i: int| 0 <= i < path.len() ==> #[trigger] path[i] != '\\'
                &&& forall|i: int| 0 <= i < path.len() ==> #[trigger] path[i] != '\0'
                &&& !(path.len() >= 2 && path[1] == ':' && ('a' <= path[0] <= 'z' || 'A'
                    <= path[0] <= 'Z'))
                &&& forall|k: int| 0 <= k < names.len() ==> leads_on(#[trigger] names[k])
            }
            &&& forall|error: RepositoryPathError, k: int|
                #![trigger refused_with(path, error), names[k]]
                refused_with(path, error) && 0 <= k < names.len() && !leads_on(names[k]) && (forall|
                    i: int,
                |
                    0 <= i < k ==> leads_on(#[trigger] names[i])) ==> match error {
                    RepositoryPathError::EmptyComponent(_) => names[k].len() == 0,
                    RepositoryPathError::CurrentDirectory(_) => names[k] == seq!['.'],
                    RepositoryPathError::ParentDirectory(_) => names[k] == seq!['.', '.'],
                    RepositoryPathError::Absolute(_) => path[0] == '/' || path[1] == ':',
                    RepositoryPathError::Empty => path.len() == 0,
                    RepositoryPathError::Backslash(_) => path.contains('\\'),
                    RepositoryPathError::NulByte => path.contains('\0'),
                }
        }),
{
    let path = path_of(names);
    lemma_path_of(names);
    assert forall|k: int| 0 <= k < names.len() implies leads_on(#[trigger] names[k]) == (
    component_fault(names[k]) is None) by {}
    if canonical(path) {
        assert forall|k: int| 0 <= k < names.len() implies leads_on(#[trigger] names[k]) by {
            assert(component_fault(text::split_on(path, '/')[k]) is None);
        }
    }
    if forall|k: int| 0 <= k < names.len() ==> leads_on(#[trigger] names[k]) {
        assert(leads_on(names[0]));
        assert(path[0] == names[0][0]);
        assert(names[0].contains(names[0][0]));
        assert(path[0] != '/');
    }
    assert forall|error: RepositoryPathError, k: int|
        #![trigger refused_with(path, error), names[k]]
        refused_with(path, error) && 0 <= k < names.len() && !leads_on(names[k]) && (forall|
            i: int,
        |
            0 <= i < k ==> leads_on(#[trigger] names[i])) implies match error {
        RepositoryPathError::EmptyComponent(_) => names[k].len() == 0,
        RepositoryPathError::CurrentDirectory(_) => names[k] == seq!['.'],
        RepositoryPathError::ParentDirectory(_) => names[k] == seq!['.', '.'],
        RepositoryPathError::Absolute(_) => path[0] == '/' || path[1] == ':',
        RepositoryPathError::Empty => path.len() == 0,
        RepositoryPathError::Backslash(_) => path.contains('\\'),
        RepositoryPathError::NulByte => path.contains('\0'),
    } by {
        let fault = match error {
            RepositoryPathError::EmptyComponent(_) => ComponentFault::Empty,
            RepositoryPathError::CurrentDirectory(_) => ComponentFault::Current,
            _ => ComponentFault::Parent,
        };
        if first_fault(path, fault) {
            let j = choose|j: int|
                {
                    &&& 0 <= j < names.len()
                    &&& component_fault(#[trigger] names[j]) == Some(fault)
                    &&& forall|i: int|
                        0 <= i < j ==> component_fault(#[trigger] names[i]) is None
                };
            assert(j == k) by {
                if j < k {
                    assert(leads_on(names[j]));
                }
                if k < j {
                    assert(component_fault(names[k]) is None);
                }
            }
        }
    }
}

} // verus!
