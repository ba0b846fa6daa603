//! What the modules of files are called.
use crate::ir::EntryPointKind;
use crate::lang_python;
use crate::lang_rust;
use crate::parser::Range;
use crate::path;
use crate::syntax::NodeShown;
use crate::text;
use vstd::prelude::*;

verus! {

/// Whether names can be components of a path.
pub open spec fn are_components(names: Seq<Seq<char>>) -> bool {
    forall|k: int| 0 <= k < names.len() ==> !(#[trigger] names[k]).contains('/')
}

/// The path of a file with a stem and a suffix below directories.
pub open spec fn file_path(
    directories: Seq<Seq<char>>,
    stem: Seq<char>,
    suffix: Seq<char>,
) -> Seq<char> {
    path::path_of(directories.push(stem + suffix))
}

pub open spec fn rust_suffix() -> Seq<char> {
    seq!['.', 'r', 's']
}

pub open spec fn python_suffix() -> Seq<char> {
    seq!['.', 'p', 'y']
}

proof fn lemma_components(
    directories: Seq<Seq<char>>,
    stem: Seq<char>,
    suffix: Seq<char>,
)
    requires
        are_components(directories),
        !stem.contains('/'),
        !suffix.contains('/'),
    ensures
        text::split_on(file_path(directories, stem, suffix), '/') == directories.push(
            stem + suffix,
        ),
{
    let names = directories.push(stem + suffix);
    assert forall|k: int| 0 <= k < names.len() implies !(#[trigger] names[k]).contains('/') by {
        if k == directories.len() {
            let name = stem + suffix;
            if name.contains('/') {
                let i = choose|i: int| 0 <= i < name.len() && name[i] == '/';
                if i < stem.len() {
                    assert(stem[i] == '/');
                } else {
                    assert(suffix[i - stem.len()] == '/');
                }
            }
        } else {
            assert(names[k] == directories[k]);
        }
    }
    path::lemma_path_of(names);
}

/// The full name of the module of a Rust file.
pub open spec fn rust_name(directories: Seq<Seq<char>>, stem: Seq<char>, root: NodeShown) -> Seq<
    char,
> {
    lang_rust::module_of(file_path(directories, stem, rust_suffix()), root)->Ok_0.qualified_name
}

/// Whether a Rust file stands for the directory that it is in.
pub open spec fn stands_for_directory(stem: Seq<char>) -> bool {
    stem == "lib"@ || stem == "main"@ || stem == "mod"@
}

proof fn lemma_rust_module(directories: Seq<Seq<char>>, stem: Seq<char>, root: NodeShown)
    requires
        are_components(directories),
        !stem.contains('/'),
        lang_rust::range_of(root) is Ok,
    ensures
        ({
            let found = lang_rust::module_of(file_path(directories, stem, rust_suffix()), root);
            let below = if directories.len() > 0 && directories[0] == "src"@ {
                directories.skip(1)
            } else {
                directories
            };
            let names = if stands_for_directory(stem) {
                below
            } else {
                below.push(stem)
            };
            &&& found is Ok
            &&& found->Ok_0.qualified_name == lang_rust::path_of("crate"@, names)
            &&& found->Ok_0.name == if names.len() == 0 {
                "crate"@
            } else {
                names.last()
            }
        }),
{
    let suffix = rust_suffix();
    assert(!suffix.contains('/'));
    lemma_components(directories, stem, suffix);
    let file = stem + suffix;
    let components = directories.push(file);
    assert(components.last() == file);
    assert(components.drop_last() =~= directories);
    assert(file.skip(file.len() - suffix.len()) =~= suffix);
    assert(text::ends_with(file, suffix));
    assert(file.take(file.len() - 3) =~= stem);
}

/// The module of a Rust file is named after the path of the file, from the crate on. A
/// file that stands for its directory has the name of the directory; the directory of
/// the sources has that of the crate; and what is below another one adds its own name.
pub proof fn law_rust_module_is_named_after_the_path(
    directories: Seq<Seq<char>>,
    name: Seq<char>,
    root: NodeShown,
)
    requires
        are_components(directories),
        !name.contains('/'),
        lang_rust::range_of(root) is Ok,
    ensures
        rust_name(Seq::empty(), "lib"@, root) == "crate"@,
        rust_name(directories, "main"@, root) == rust_name(directories, "lib"@, root),
        rust_name(directories, "mod"@, root) == rust_name(directories, "lib"@, root),
        !stands_for_directory(name) ==> rust_name(directories, name, root) == rust_name(
            directories,
            "lib"@,
            root,
        ) + "::"@ + name,
        directories.len() == 0 && name == "src"@ ==> rust_name(
            directories.push(name),
            "lib"@,
            root,
        ) == "crate"@,
        directories.len() > 0 || name != "src"@ ==> rust_name(
            directories.push(name),
            "lib"@,
            root,
        ) == rust_name(directories, "lib"@, root) + "::"@ + name,
{
    assert(!"lib"@.contains('/') && !"main"@.contains('/') && !"mod"@.contains('/')) by {
        reveal_strlit("lib");
        reveal_strlit("main");
        reveal_strlit("mod");
    }
    let further = directories.push(name);
    assert(are_components(further)) by {
        assert forall|k: int| 0 <= k < further.len() implies !(#[trigger] further[k]).contains(
            '/',
        ) by {
            if k < directories.len() {
                assert(further[k] == directories[k]);
            }
        }
    }
    lemma_rust_module(Seq::empty(), "lib"@, root);
    lemma_rust_module(directories, "lib"@, root);
    lemma_rust_module(directories, "main"@, root);
    lemma_rust_module(directories, "mod"@, root);
    lemma_rust_module(directories, name, root);
    lemma_rust_module(further, "lib"@, root);
    let below = if directories.len() > 0 && directories[0] == "src"@ {
        directories.skip(1)
    } else {
        directories
    };
    assert(below.push(name).drop_last() =~= below);
    if directories.len() > 0 {
        assert(further[0] == directories[0]);
        if directories[0] == "src"@ {
            assert(further.skip(1) =~= below.push(name));
        }
    } else if name == "src"@ {
        assert(further.skip(1) =~= Seq::empty());
    }
}

/// The full name of the module of a Python file.
pub open spec fn python_name(directories: Seq<Seq<char>>, stem: Seq<char>) -> Seq<char> {
    (lang_python::module_names(file_path(directories, stem, python_suffix()))->Ok_0).1
}

proof fn lemma_python_stem(directories: Seq<Seq<char>>, stem: Seq<char>)
    requires
        are_components(directories),
        !stem.contains('/'),
    ensures
        lang_python::path_stem(file_path(directories, stem, python_suffix())) == Some(
            path::path_of(directories.push(stem)),
        ),
        text::split_on(path::path_of(directories.push(stem)), '/') == directories.push(stem),
{
    let suffix = python_suffix();
    let whole = file_path(directories, stem, suffix);
    let front = path::path_of(directories.push(stem));
    let empty = Seq::<char>::empty();
    assert(!empty.contains('/'));
    lemma_components(directories, stem, empty);
    assert(stem + empty =~= stem);
    assert(whole =~= front + suffix) by {
        let names = directories.push(stem + suffix);
        let others = directories.push(stem);
        assert(names.drop_last() =~= directories);
        assert(others.drop_last() =~= directories);
    }
    let at = front.len() as int;
    assert(whole.subrange(at, at + 1) =~= seq!['.']);
    assert(text::occurs_at(whole, seq!['.'], at));
    assert forall|i: int| at < i < whole.len() implies !text::occurs_at(whole, seq!['.'], i) by {
        assert(whole[i] == suffix[i - at]);
        if text::occurs_at(whole, seq!['.'], i) {
            assert(whole.subrange(i, i + 1)[0] == whole[i]);
        }
    }
    lemma_last_occurrence(whole, at, whole.len() as int);
    assert(whole.take(at) =~= front);
    assert(lang_python::lowered(whole.skip(at + 1)) =~= seq!['p', 'y']);
}

proof fn lemma_last_occurrence(s: Seq<char>, at: int, from: int)
    requires
        0 <= at <= from <= s.len(),
        text::occurs_at(s, seq!['.'], at),
        forall|i: int| at < i <= from ==> !text::occurs_at(s, seq!['.'], i),
    ensures
        text::last_occurrence(s, seq!['.'], from) == Some(at),
    decreases from,
{
    if at < from {
        lemma_last_occurrence(s, at, from - 1);
    }
}

/// The module of a Python file is named after the path of the file. A package has the
/// name of its directory, and what is in a directory adds its own name to that.
pub proof fn law_python_module_is_named_after_the_path(
    directories: Seq<Seq<char>>,
    name: Seq<char>,
)
    requires
        are_components(directories),
        !name.contains('/'),
        name.len() > 0,
    ensures
        python_name(Seq::empty(), name) == name,
        directories.len() > 0 && name != "__init__"@ ==> python_name(directories, name)
            == python_name(directories, "__init__"@) + "."@ + name,
        name != "__init__"@ ==> python_name(directories.push(name), "__init__"@) == python_name(
            directories,
            name,
        ),
{
    assert(!"__init__"@.contains('/') && "__init__"@.len() > 0) by {
        reveal_strlit("__init__");
    }
    let further = directories.push(name);
    assert(are_components(further)) by {
        assert forall|k: int| 0 <= k < further.len() implies !(#[trigger] further[k]).contains(
            '/',
        ) by {
            if k < directories.len() {
                assert(further[k] == directories[k]);
            }
        }
    }
    lemma_python_stem(Seq::empty(), name);
    lemma_python_stem(directories, name);
    lemma_python_stem(directories, "__init__"@);
    lemma_python_stem(further, "__init__"@);
    assert(directories.push("__init__"@).drop_last() =~= directories);
    assert(further.push("__init__"@).drop_last() =~= further);
    assert(further.drop_last() =~= directories);
    assert(Seq::<Seq<char>>::empty().push(name).len() == 1);
    assert(further.push("__init__"@).last() == "__init__"@);
    assert(directories.push("__init__"@).last() == "__init__"@);
}

/// The file of a library is an entry point, as a whole; no other file is one by itself.
pub proof fn law_library_file_is_an_entry_point(
    directories: Seq<Seq<char>>,
    stem: Seq<char>,
    span: Range,
)
    requires
        are_components(directories),
        !stem.contains('/'),
    ensures
        ({
            let entries = lang_rust::library_entries(
                file_path(directories, stem, rust_suffix()),
                span,
            );
            &&& stem == "lib"@ ==> entries.len() == 1 && entries[0].kind
                == EntryPointKind::Library && entries[0].symbol_id is None && entries[0].span
                == span
            &&& stem != "lib"@ ==> entries.len() == 0
        }),
{
    let suffix = rust_suffix();
    assert(!suffix.contains('/'));
    lemma_components(directories, stem, suffix);
    let file = stem + suffix;
    assert(directories.push(file).last() == file);
    reveal_strlit("lib");
    reveal_strlit("lib.rs");
    assert("lib"@ + suffix =~= "lib.rs"@);
    if file == "lib.rs"@ {
        assert(stem =~= file.take(3));
        assert("lib"@ =~= file.take(3));
    }
}

} // verus!
