//! What Rust source files define, import, call and refer to.
use crate::ir::{EntryPointKind, Language, ReferenceKind, SymbolKind};
use crate::parser;
use crate::parser::{
    CallShown, EntryShown, FileShown, ImportShown, KindShown, ModuleShown, ParseInput, ParsedCall,
    ParsedEntryPoint, ParsedFile, ParsedImport, ParsedModule, ParsedReference, ParsedSymbol,
    ParsedSymbolId, ParsedTarget, ParserAdapter, ParserError, ReferenceShown, SymbolShown,
    TargetShown,
};
use crate::path::RepositoryPath;
use crate::source;
use crate::source::SourceSpan;
use crate::syntax;
use crate::syntax::{Grammar, NodeShown, SpanFault, SyntaxNode};
use crate::text;
use crate::wrap;
use vstd::prelude::*;

verus! {

/// What is said of a node whose text cannot be told.
pub open spec fn text_fault(node: NodeShown) -> Seq<char> {
    node.kind + " node is not a valid UTF-8 range"@
}

/// What is said of a node whose range cannot be told.
pub open spec fn span_fault(node: NodeShown, fault: SpanFault) -> Seq<char> {
    match fault {
        SpanFault::StartLine => "source start line exceeds u32::MAX"@,
        SpanFault::EndLine => "source end line exceeds u32::MAX"@,
        SpanFault::StartColumn => "source start column exceeds u32::MAX"@,
        SpanFault::EndColumn => "source end column exceeds u32::MAX"@,
        SpanFault::Reversed => source::reversed_text(
            syntax::node_start(node),
            syntax::node_stop(node),
        ),
    }
}

/// The text of a node, or what is said where it has none.
pub open spec fn text_of(node: NodeShown, source: Seq<char>) -> Result<Seq<char>, Seq<char>> {
    match syntax::node_text(node, source) {
        Some(found) => Ok(found),
        None => Err(text_fault(node)),
    }
}

/// The range of a node, or what is said where it has none.
pub open spec fn range_of(node: NodeShown) -> Result<parser::Range, Seq<char>> {
    match syntax::span_of(node) {
        Ok(span) => Ok(span),
        Err(fault) => Err(span_fault(node, fault)),
    }
}

fn read_text<'a>(node: &SyntaxNode, source: &'a str) -> (found: Result<&'a str, String>)
    ensures
        match found {
            Ok(found) => text_of(node@, source@) == Ok::<Seq<char>, Seq<char>>(found@),
            Err(message) => text_of(node@, source@) == Err::<Seq<char>, Seq<char>>(message@),
        },
{
    match text::text_between(source, node.start_byte, node.end_byte) {
        Some(found) => Ok(found),
        None => {
            let mut message = node.kind.clone();
            message.push_str(" node is not a valid UTF-8 range");
            Err(message)
        },
    }
}

fn read_span(node: &SyntaxNode) -> (span: Result<SourceSpan, String>)
    ensures
        match span {
            Ok(span) => range_of(node@) == Ok::<parser::Range, Seq<char>>(span@),
            Err(message) => range_of(node@) == Err::<parser::Range, Seq<char>>(message@),
        },
{
    match syntax::node_span(node) {
        Ok(span) => Ok(span),
        Err((fault, reason)) => match fault {
            SpanFault::StartLine => Err("source start line exceeds u32::MAX".to_owned()),
            SpanFault::EndLine => Err("source end line exceeds u32::MAX".to_owned()),
            SpanFault::StartColumn => Err("source start column exceeds u32::MAX".to_owned()),
            SpanFault::EndColumn => Err("source end column exceeds u32::MAX".to_owned()),
            SpanFault::Reversed => Err(reason),
        },
    }
}

/// Names joined to a path.
pub open spec fn path_of(prefix: Seq<char>, names: Seq<Seq<char>>) -> Seq<char>
    decreases names.len(),
{
    if names.len() == 0 {
        prefix
    } else {
        path_of(prefix, names.drop_last()) + "::"@ + names.last()
    }
}

/// The components of the module that a file is: the directories below `src` and the
/// name of the file, except that of a file that stands for its directory.
pub open spec fn module_components(components: Seq<Seq<char>>) -> Seq<Seq<char>> {
    let file = components.last();
    let stem = file.take(file.len() - 3);
    let directories = components.drop_last();
    let below = if directories.len() > 0 && directories[0] == "src"@ {
        directories.skip(1)
    } else {
        directories
    };
    if stem == "lib"@ || stem == "main"@ || stem == "mod"@ {
        below
    } else {
        below.push(stem)
    }
}

/// The module of a file.
pub open spec fn module_of(path: Seq<char>, root: NodeShown) -> Result<ModuleShown, Seq<char>> {
    let components = text::split_on(path, '/');
    if !text::ends_with(components.last(), seq!['.', 'r', 's']) {
        Err("Rust repository path does not end in .rs"@)
    } else {
        match range_of(root) {
            Err(message) => Err(message),
            Ok(span) => {
                let names = module_components(components);
                Ok(
                    ModuleShown {
                        name: if names.len() == 0 {
                            "crate"@
                        } else {
                            names.last()
                        },
                        qualified_name: path_of("crate"@, names),
                        span: Some(span),
                    },
                )
            },
        }
    }
}

fn push_segment(path: &mut String, name: &[char])
    ensures
        final(path)@ == old(path)@ + "::"@ + name@,
{
    path.push_str("::");
    text::push_chars(path, name);
    assert(path@ =~= old(path)@ + "::"@ + name@);
}

fn is_text(chars: &[char], wanted: &str) -> (same: bool)
    ensures
        same == (chars@ == wanted@),
{
    let other = text::chars_of(wanted);
    text::same_chars(chars, other.as_slice())
}

/// Finds the module of a file.
fn file_module(path: &str, root: &SyntaxNode) -> (module: Result<ParsedModule, String>)
    ensures
        match module {
            Ok(module) => module_of(path@, root@) == Ok::<ModuleShown, Seq<char>>(module@),
            Err(message) => module_of(path@, root@) == Err::<ModuleShown, Seq<char>>(message@),
        },
{
    let chars = text::chars_of(path);
    let parts = text::split_chars(chars.as_slice(), '/');
    let ghost components = text::slice_views(parts@);
    proof {
        text::lemma_split_ends(path@, '/');
    }
    let count = parts.len();
    let file = parts[count - 1];
    assert(components.last() == file@);
    let suffix: [char; 3] = ['.', 'r', 's'];
    assert(suffix@ =~= seq!['.', 'r', 's']);
    if !text::chars_end_with(file, suffix.as_slice()) {
        return Err("Rust repository path does not end in .rs".to_owned());
    }
    let span = match read_span(root) {
        Ok(span) => span,
        Err(message) => {
            return Err(message);
        },
    };
    let stem = vstd::slice::slice_subrange(file, 0, file.len() - 3);
    assert(stem@ =~= file@.take(file@.len() - 3));
    let first: usize = if count > 1 && is_text(parts[0], "src") {
        1
    } else {
        0
    };
    let ghost names = module_components(components);
    let ghost directories = components.drop_last();
    let mut qualified_name = "crate".to_owned();
    let mut name: &[char] = stem;
    let mut named = false;
    let mut index: usize = first;
    let ghost below = directories.skip(first as int);
    proof {
        assert(directories[0] == components[0] || directories.len() == 0);
        assert(directories.skip(0) =~= directories);
        assert(below.take(0) =~= Seq::empty());
    }
    while index < count - 1
        invariant
            first <= index <= count - 1,
            count == parts@.len(),
            components == text::slice_views(parts@),
            directories == components.drop_last(),
            below == directories.skip(first as int),
            qualified_name@ == path_of("crate"@, below.take(index - first)),
            named == (index > first),
            named ==> name@ == below[index - first - 1],
        decreases count - index,
    {
        assert(below.take(index + 1 - first).drop_last() =~= below.take(index - first));
        assert(below[index - first] == parts@[index as int]@);
        push_segment(&mut qualified_name, parts[index]);
        name = parts[index];
        named = true;
        index = index + 1;
    }
    assert(below.take(below.len() as int) =~= below);
    if !(is_text(stem, "lib") || is_text(stem, "main") || is_text(stem, "mod")) {
        push_segment(&mut qualified_name, stem);
        name = stem;
        named = true;
        assert(below.push(stem@).drop_last() =~= below);
    }
    let short = if named {
        text::string_of(name)
    } else {
        "crate".to_owned()
    };
    Ok(ParsedModule { name: short, qualified_name, span: Some(span) })
}

/// What the extraction has found so far, and the names of the definitions around.
#[verifier::ext_equal]
pub struct Found {
    pub symbols: Seq<SymbolShown>,
    pub imports: Seq<ImportShown>,
    pub references: Seq<ReferenceShown>,
    pub calls: Seq<CallShown>,
    pub entry_points: Seq<EntryShown>,
    pub context: Seq<Seq<char>>,
}

pub type Outcome = Result<Found, Seq<char>>;

/// What is read: the nodes of a tree, their source, and the path of the module.
pub struct Given {
    pub nodes: Seq<NodeShown>,
    pub source: Seq<char>,
    pub module: Seq<char>,
}

/// The first of the siblings from `at` on that is an identifier.
pub open spec fn identifier_sibling(nodes: Seq<NodeShown>, at: int, stop: int) -> Option<int>
    decreases stop - at,
{
    if at >= stop {
        None
    } else if nodes[at].named && (nodes[at].kind == "identifier"@ || nodes[at].kind
        == "type_identifier"@) {
        Some(at)
    } else {
        identifier_sibling(nodes, syntax::after(nodes, at, stop), stop)
    }
}

/// The child that names a definition.
pub open spec fn name_node(nodes: Seq<NodeShown>, at: int, stop: int) -> Option<int> {
    match syntax::child_with_field(nodes, at, stop, "name"@) {
        Some(child) => Some(child),
        None => identifier_sibling(nodes, at + 1, stop),
    }
}

/// The kind of symbol that a kind of node defines, other than an implementation.
pub open spec fn defined_kind(kind: Seq<char>, in_impl: bool) -> Option<SymbolKind> {
    if kind == "mod_item"@ {
        Some(SymbolKind::Module)
    } else if kind == "function_item"@ {
        if in_impl {
            Some(SymbolKind::Method)
        } else {
            Some(SymbolKind::Function)
        }
    } else if kind == "function_signature_item"@ {
        Some(SymbolKind::Method)
    } else if kind == "struct_item"@ {
        Some(SymbolKind::Struct)
    } else if kind == "enum_item"@ {
        Some(SymbolKind::Enum)
    } else if kind == "trait_item"@ {
        Some(SymbolKind::Trait)
    } else if kind == "type_item"@ || kind == "associated_type"@ {
        Some(SymbolKind::TypeAlias)
    } else if kind == "const_item"@ {
        Some(SymbolKind::Constant)
    } else if kind == "static_item"@ {
        Some(SymbolKind::Static)
    } else if kind == "macro_definition"@ {
        Some(SymbolKind::Macro)
    } else {
        None
    }
}

/// What a definition is called, of what kind it is, and the node of its name.
#[verifier::ext_equal]
pub struct Definition {
    pub name: Seq<char>,
    pub kind: KindShown,
    pub name_node: Option<int>,
}

/// The header of an implementation: all of it before its body.
pub open spec fn impl_header(given: Given, at: int, stop: int) -> Option<Seq<char>> {
    let end = match syntax::child_with_field(given.nodes, at, stop, "body"@) {
        Some(body) => given.nodes[body].start_byte,
        None => given.nodes[at].end_byte,
    };
    text::between_bytes(given.source, given.nodes[at].start_byte as int, end as int)
}

/// What a node defines.
pub open spec fn definition_of(given: Given, at: int, stop: int, in_impl: bool) -> Result<
    Option<Definition>,
    Seq<char>,
> {
    let node = given.nodes[at];
    if node.kind == "impl_item"@ {
        match impl_header(given, at, stop) {
            None => Err("impl header is not a valid UTF-8 range"@),
            Some(header) => Ok(
                Some(
                    Definition {
                        name: wrap::with_blanks(wrap::words(header)),
                        kind: KindShown::Other("impl"@),
                        name_node: None,
                    },
                ),
            ),
        }
    } else {
        match defined_kind(node.kind, in_impl) {
            None => Ok(None),
            Some(kind) => match name_node(given.nodes, at, stop) {
                None => Err(
                    node.kind + " at byte "@ + text::decimal(node.start_byte as nat)
                        + " has no definition name"@,
                ),
                Some(name) => match text_of(given.nodes[name], given.source) {
                    Err(message) => Err(message),
                    Ok(found) => Ok(
                        Some(
                            Definition {
                                name: found,
                                kind: KindShown::Known(kind),
                                name_node: Some(name),
                            },
                        ),
                    ),
                },
            },
        }
    }
}

/// Whether an attribute stands in a text without blanks: by itself, or as the last
/// part of a path.
pub open spec fn has_attribute(compact: Seq<char>, name: Seq<char>) -> bool {
    text::contains(compact, "#["@ + name + "]"@) || text::contains(compact, "::"@ + name + "]"@)
        || text::contains(compact, "::"@ + name + "("@)
}

/// The kind of entry point that a function is. `compact` is what stands before its
/// name, without blanks.
pub open spec fn entry_kind(compact: Seq<char>, kind: SymbolKind, name: Seq<char>) -> Option<
    EntryPointKind,
> {
    if has_attribute(compact, "bench"@) {
        Some(EntryPointKind::Benchmark)
    } else if has_attribute(compact, "test"@) {
        Some(EntryPointKind::Test)
    } else if kind == SymbolKind::Function && (name == "main"@ || has_attribute(
        compact,
        "main"@,
    )) {
        Some(EntryPointKind::Executable)
    } else {
        None
    }
}

/// Texts put together.
pub open spec fn concatenated(list: Seq<Seq<char>>) -> Seq<char>
    decreases list.len(),
{
    if list.len() == 0 {
        Seq::empty()
    } else {
        concatenated(list.drop_last()) + list.last()
    }
}

/// The entry points with that which a definition makes.
pub open spec fn with_entry(
    entries: Seq<EntryShown>,
    given: Given,
    at: int,
    definition: Definition,
    symbol: SymbolShown,
    attributes: Seq<Seq<char>>,
) -> Result<Seq<EntryShown>, Seq<char>> {
    match (definition.kind, definition.name_node) {
        (KindShown::Known(kind), Some(name)) => if kind == SymbolKind::Function || kind
            == SymbolKind::Method {
            match text::between_bytes(
                given.source,
                given.nodes[at].start_byte as int,
                given.nodes[name].start_byte as int,
            ) {
                None => Err("function attribute range is not valid UTF-8"@),
                Some(prefix) => match entry_kind(
                    wrap::without_blanks(concatenated(attributes) + prefix),
                    kind,
                    symbol.name,
                ) {
                    None => Ok(entries),
                    Some(kind) => Ok(
                        entries.push(
                            EntryShown {
                                kind,
                                label: symbol.name,
                                symbol_id: Some(symbol.local_id),
                                span: symbol.span,
                            },
                        ),
                    ),
                },
            }
        } else {
            Ok(entries)
        },
        _ => Ok(entries),
    }
}

impl Found {
    /// With a definition, which is then the innermost one.
    pub open spec fn with_definition(
        self,
        given: Given,
        at: int,
        definition: Definition,
        enclosing: Option<ParsedSymbolId>,
        attributes: Seq<Seq<char>>,
    ) -> Outcome {
        if self.symbols.len() > u32::MAX {
            Err("Rust file contains more than u32::MAX symbols"@)
        } else {
            match range_of(given.nodes[at]) {
                Err(message) => Err(message),
                Ok(span) => {
                    let symbol = SymbolShown {
                        local_id: ParsedSymbolId(self.symbols.len() as u32),
                        name: definition.name,
                        qualified_name: path_of(given.module, self.context) + "::"@
                            + definition.name,
                        kind: definition.kind,
                        span,
                        parent_id: enclosing,
                    };
                    match with_entry(
                        self.entry_points,
                        given,
                        at,
                        definition,
                        symbol,
                        attributes,
                    ) {
                        Err(message) => Err(message),
                        Ok(entry_points) => Ok(
                            Found {
                                symbols: self.symbols.push(symbol),
                                entry_points,
                                context: self.context.push(definition.name),
                                ..self
                            },
                        ),
                    }
                },
            }
        }
    }
}

/// The last of the siblings from `at` on that can be the target of an import.
pub open spec fn import_sibling(
    nodes: Seq<NodeShown>,
    at: int,
    stop: int,
    last: Option<int>,
) -> Option<int>
    decreases stop - at,
{
    if at >= stop {
        last
    } else {
        let usable = nodes[at].named && nodes[at].kind != "visibility_modifier"@ && nodes[at].kind
            != "attribute_item"@;
        import_sibling(
            nodes,
            syntax::after(nodes, at, stop),
            stop,
            if usable {
                Some(at)
            } else {
                last
            },
        )
    }
}

/// The target and the alias of an import. A list in braces is kept whole.
pub open spec fn import_parts(target: Seq<char>) -> (Seq<char>, Option<Seq<char>>) {
    if text::has_char(target, '{') {
        (target, None)
    } else {
        match text::last_occurrence(target, " as "@, target.len() as int) {
            None => (target, None),
            Some(at) => (
                text::trim(target.take(at)),
                Some(text::trim(target.skip(at + " as "@.len()))),
            ),
        }
    }
}

impl Found {
    /// With an import.
    pub open spec fn with_import(self, given: Given, at: int, stop: int) -> Outcome {
        let argument = match syntax::child_with_field(given.nodes, at, stop, "argument"@) {
            Some(child) => Some(child),
            None => import_sibling(given.nodes, at + 1, stop, None),
        };
        match argument {
            None => Err(
                "use declaration at byte "@ + text::decimal(given.nodes[at].start_byte as nat)
                    + " has no target"@,
            ),
            Some(child) => match text_of(given.nodes[child], given.source) {
                Err(message) => Err(message),
                Ok(found) => match range_of(given.nodes[at]) {
                    Err(message) => Err(message),
                    Ok(span) => {
                        let parts = import_parts(text::trim(found));
                        Ok(
                            Found {
                                imports: self.imports.push(
                                    ImportShown { target: parts.0, span, alias: parts.1 },
                                ),
                                ..self
                            },
                        )
                    },
                },
            },
        }
    }

    /// With a call.
    pub open spec fn with_call(
        self,
        given: Given,
        at: int,
        stop: int,
        caller_id: Option<ParsedSymbolId>,
    ) -> Outcome {
        let function = match syntax::child_with_field(given.nodes, at, stop, "function"@) {
            Some(child) => Some(child),
            None => syntax::named_sibling(given.nodes, at + 1, stop),
        };
        match function {
            None => Err(
                "call at byte "@ + text::decimal(given.nodes[at].start_byte as nat)
                    + " has no function"@,
            ),
            Some(child) => match text_of(given.nodes[child], given.source) {
                Err(message) => Err(message),
                Ok(found) => match range_of(given.nodes[at]) {
                    Err(message) => Err(message),
                    Ok(span) => Ok(
                        Found {
                            calls: self.calls.push(
                                CallShown {
                                    caller_id,
                                    target: TargetShown::Unresolved(text::trim(found)),
                                    span,
                                    confidence: None,
                                },
                            ),
                            ..self
                        },
                    ),
                },
            },
        }
    }

    /// With a reference.
    pub open spec fn with_reference(
        self,
        given: Given,
        at: int,
        source_id: Option<ParsedSymbolId>,
    ) -> Outcome {
        match text_of(given.nodes[at], given.source) {
            Err(message) => Err(message),
            Ok(found) => match range_of(given.nodes[at]) {
                Err(message) => Err(message),
                Ok(span) => Ok(
                    Found {
                        references: self.references.push(
                            ReferenceShown {
                                source_id,
                                target: TargetShown::Unresolved(found),
                                kind: ReferenceKind::Read,
                                span,
                            },
                        ),
                        ..self
                    },
                ),
            },
        }
    }

    /// With what a node itself is: a call or a reference.
    pub open spec fn with_use(
        self,
        given: Given,
        at: int,
        stop: int,
        enclosing: Option<ParsedSymbolId>,
        is_name: bool,
    ) -> Outcome {
        if given.nodes[at].kind == "call_expression"@ {
            self.with_call(given, at, stop, enclosing)
        } else if given.nodes[at].kind == "identifier"@ && !is_name {
            self.with_reference(given, at, enclosing)
        } else {
            Ok(self)
        }
    }
}

/// Whether what stands below a node stands in an implementation or a trait.
pub open spec fn impl_below(kind: Seq<char>, in_impl: bool) -> bool {
    if kind == "impl_item"@ || kind == "trait_item"@ {
        true
    } else if kind == "source_file"@ || kind == "mod_item"@ {
        false
    } else {
        in_impl
    }
}

/// What is found with the node at `at` and all below it. `attributes` are the texts of
/// the attributes before the node, `is_name` tells whether it names a definition.
pub open spec fn visited(
    given: Given,
    at: int,
    stop: int,
    enclosing: Option<ParsedSymbolId>,
    attributes: Seq<Seq<char>>,
    in_impl: bool,
    is_name: bool,
    found: Found,
) -> Outcome
    decreases stop - at, 0int,
{
    let node = given.nodes[at];
    if at >= stop || node.kind == "attribute_item"@ {
        Ok(found)
    } else if node.kind == "use_declaration"@ {
        found.with_import(given, at, stop)
    } else {
        match definition_of(given, at, stop, in_impl) {
            Err(message) => Err(message),
            Ok(None) => match found.with_use(given, at, stop, enclosing, is_name) {
                Err(message) => Err(message),
                Ok(used) => visited_children(
                    given,
                    at + 1,
                    stop,
                    enclosing,
                    Seq::empty(),
                    impl_below(node.kind, in_impl),
                    None,
                    used,
                ),
            },
            Ok(Some(definition)) => match found.with_definition(
                given,
                at,
                definition,
                enclosing,
                attributes,
            ) {
                Err(message) => Err(message),
                Ok(defined) => {
                    let inner = Some(ParsedSymbolId(found.symbols.len() as u32));
                    match defined.with_use(given, at, stop, inner, is_name) {
                        Err(message) => Err(message),
                        Ok(used) => match visited_children(
                            given,
                            at + 1,
                            stop,
                            inner,
                            Seq::empty(),
                            impl_below(node.kind, in_impl),
                            definition.name_node,
                            used,
                        ) {
                            Err(message) => Err(message),
                            Ok(below) => Ok(
                                Found { context: below.context.drop_last(), ..below },
                            ),
                        },
                    }
                },
            },
        }
    }
}

/// What is found with the siblings from `at` on. `pending` are the texts of the
/// attributes that belong to the next sibling, `name` is the one that names their
/// parent.
pub open spec fn visited_children(
    given: Given,
    at: int,
    stop: int,
    enclosing: Option<ParsedSymbolId>,
    pending: Seq<Seq<char>>,
    in_impl: bool,
    name: Option<int>,
    found: Found,
) -> Outcome
    decreases stop - at, 1int,
{
    if at >= stop {
        Ok(found)
    } else {
        let node = given.nodes[at];
        let next = syntax::after(given.nodes, at, stop);
        if !node.named || node.kind == "line_comment"@ || node.kind == "block_comment"@ {
            visited_children(given, next, stop, enclosing, pending, in_impl, name, found)
        } else if node.kind == "attribute_item"@ {
            match text_of(node, given.source) {
                Err(message) => Err(message),
                Ok(attribute) => visited_children(
                    given,
                    next,
                    stop,
                    enclosing,
                    pending.push(attribute),
                    in_impl,
                    name,
                    found,
                ),
            }
        } else {
            match visited(
                given,
                at,
                next,
                enclosing,
                pending,
                in_impl,
                name == Some(at),
                found,
            ) {
                Err(message) => Err(message),
                Ok(seen) => visited_children(
                    given,
                    next,
                    stop,
                    enclosing,
                    Seq::empty(),
                    in_impl,
                    name,
                    seen,
                ),
            }
        }
    }
}

/// A name without the mark of a raw identifier.
pub open spec fn plain_name(name: Seq<char>) -> Seq<char> {
    if text::starts_with(name, seq!['r', '#']) {
        name.skip(2)
    } else {
        name
    }
}

/// Whether all characters can stand in an identifier.
pub open spec fn is_word(s: Seq<char>) -> bool {
    forall|i: int| 0 <= i < s.len() ==> #[trigger] s[i] == '_' || text::alphanumeric(s[i])
}

/// Whether a name is a single identifier.
pub open spec fn is_simple(name: Seq<char>) -> bool {
    plain_name(name).len() > 0 && is_word(plain_name(name))
}

pub open spec fn is_callable(kind: KindShown) -> bool {
    kind == KindShown::Known(SymbolKind::Function) || kind == KindShown::Known(SymbolKind::Method)
}

/// The symbols with a name, all of them or those that can be called.
pub open spec fn candidates(symbols: Seq<SymbolShown>, name: Seq<char>, callable_only: bool) -> Seq<
    ParsedSymbolId,
>
    decreases symbols.len(),
{
    if symbols.len() == 0 {
        Seq::empty()
    } else {
        let rest = candidates(symbols.drop_last(), name, callable_only);
        let last = symbols.last();
        if last.name == name && (!callable_only || is_callable(last.kind)) {
            rest.push(last.local_id)
        } else {
            rest
        }
    }
}

/// A target with a simple name that exactly one symbol of the file has is that symbol.
pub open spec fn resolved(
    target: TargetShown,
    symbols: Seq<SymbolShown>,
    callable_only: bool,
) -> TargetShown {
    match target {
        TargetShown::Local(_) => target,
        TargetShown::Unresolved(name) => {
            let found = candidates(symbols, name, callable_only);
            if is_simple(name) && found.len() == 1 {
                TargetShown::Local(found[0])
            } else {
                target
            }
        },
    }
}

/// The references with the targets that the file defines.
pub open spec fn resolved_references(found: Found) -> Seq<ReferenceShown> {
    Seq::new(
        found.references.len(),
        |i: int|
            ReferenceShown {
                target: resolved(found.references[i].target, found.symbols, false),
                ..found.references[i]
            },
    )
}

/// The calls with the targets that the file defines.
pub open spec fn resolved_calls(found: Found) -> Seq<CallShown> {
    Seq::new(
        found.calls.len(),
        |i: int|
            CallShown {
                target: resolved(found.calls[i].target, found.symbols, true),
                ..found.calls[i]
            },
    )
}

/// The entry point that a library is by itself.
pub open spec fn library_entries(path: Seq<char>, span: parser::Range) -> Seq<EntryShown> {
    if text::split_on(path, '/').last() == "lib.rs"@ {
        seq![
            EntryShown {
                kind: EntryPointKind::Library,
                label: "library crate"@,
                symbol_id: None,
                span,
            },
        ]
    } else {
        Seq::empty()
    }
}

/// What a Rust file holds, given the nodes of its syntax tree.
pub open spec fn extracted(path: RepositoryPath, source: Seq<char>, nodes: Seq<NodeShown>) -> Result<
    FileShown,
    Seq<char>,
> {
    if nodes[0].has_error {
        Err("source contains Rust syntax errors"@)
    } else {
        match module_of(path@, nodes[0]) {
            Err(message) => Err(message),
            Ok(module) => {
                let given = Given { nodes, source, module: module.qualified_name };
                let start = Found {
                    symbols: Seq::empty(),
                    imports: Seq::empty(),
                    references: Seq::empty(),
                    calls: Seq::empty(),
                    entry_points: library_entries(path@, module.span->0),
                    context: Seq::empty(),
                };
                match visited(
                    given,
                    0,
                    nodes.len() as int,
                    None,
                    Seq::empty(),
                    false,
                    false,
                    start,
                ) {
                    Err(message) => Err(message),
                    Ok(found) => Ok(
                        FileShown {
                            path,
                            language: Language::Rust,
                            module: Some(module),
                            symbols: found.symbols,
                            imports: found.imports,
                            references: resolved_references(found),
                            calls: resolved_calls(found),
                            entry_points: found.entry_points,
                        },
                    ),
                }
            },
        }
    }
}

/// A visit leaves the definitions around as they are.
proof fn lemma_context(
    given: Given,
    at: int,
    stop: int,
    enclosing: Option<ParsedSymbolId>,
    attributes: Seq<Seq<char>>,
    in_impl: bool,
    is_name: bool,
    found: Found,
)
    ensures
        visited(given, at, stop, enclosing, attributes, in_impl, is_name, found) matches Ok(seen)
            ==> seen.context == found.context,
    decreases stop - at, 0int,
{
    let node = given.nodes[at];
    if at >= stop || node.kind == "attribute_item"@ || node.kind == "use_declaration"@ {
    } else {
        match definition_of(given, at, stop, in_impl) {
            Err(_) => {},
            Ok(None) => match found.with_use(given, at, stop, enclosing, is_name) {
                Err(_) => {},
                Ok(used) => {
                    lemma_context_below(
                        given,
                        at + 1,
                        stop,
                        enclosing,
                        Seq::empty(),
                        impl_below(node.kind, in_impl),
                        None,
                        used,
                    );
                },
            },
            Ok(Some(definition)) => match found.with_definition(
                given,
                at,
                definition,
                enclosing,
                attributes,
            ) {
                Err(_) => {},
                Ok(defined) => {
                    let inner = Some(ParsedSymbolId(found.symbols.len() as u32));
                    match defined.with_use(given, at, stop, inner, is_name) {
                        Err(_) => {},
                        Ok(used) => {
                            lemma_context_below(
                                given,
                                at + 1,
                                stop,
                                inner,
                                Seq::empty(),
                                impl_below(node.kind, in_impl),
                                definition.name_node,
                                used,
                            );
                            assert(used.context.drop_last() =~= found.context);
                        },
                    }
                },
            },
        }
    }
}

proof fn lemma_context_below(
    given: Given,
    at: int,
    stop: int,
    enclosing: Option<ParsedSymbolId>,
    pending: Seq<Seq<char>>,
    in_impl: bool,
    name: Option<int>,
    found: Found,
)
    ensures
        visited_children(given, at, stop, enclosing, pending, in_impl, name, found) matches Ok(seen)
            ==> seen.context == found.context,
    decreases stop - at, 1int,
{
    if at < stop {
        let node = given.nodes[at];
        let next = syntax::after(given.nodes, at, stop);
        if !node.named || node.kind == "line_comment"@ || node.kind == "block_comment"@ {
            lemma_context_below(given, next, stop, enclosing, pending, in_impl, name, found);
        } else if node.kind == "attribute_item"@ {
            match text_of(node, given.source) {
                Err(_) => {},
                Ok(attribute) => {
                    lemma_context_below(
                        given,
                        next,
                        stop,
                        enclosing,
                        pending.push(attribute),
                        in_impl,
                        name,
                        found,
                    );
                },
            }
        } else {
            lemma_context(given, at, next, enclosing, pending, in_impl, name == Some(at), found);
            match visited(
                given,
                at,
                next,
                enclosing,
                pending,
                in_impl,
                name == Some(at),
                found,
            ) {
                Err(_) => {},
                Ok(seen) => {
                    lemma_context_below(
                        given,
                        next,
                        stop,
                        enclosing,
                        Seq::empty(),
                        in_impl,
                        name,
                        seen,
                    );
                },
            }
        }
    }
}

/// Finds the child that names a definition.
fn definition_name(nodes: &Vec<SyntaxNode>, at: usize, stop: usize) -> (found: Option<usize>)
    requires
        at < stop <= nodes@.len(),
    ensures
        match found {
            Some(child) => name_node(syntax::nodes_shown(nodes@), at as int, stop as int) == Some(
                child as int,
            ) && at < child < stop,
            None => name_node(syntax::nodes_shown(nodes@), at as int, stop as int) is None,
        },
{
    match syntax::find_field(nodes, at, stop, "name") {
        Some(child) => {
            return Some(child);
        },
        None => {},
    }
    let mut child: usize = at + 1;
    while child < stop
        invariant
            at < child <= stop <= nodes@.len(),
            syntax::child_with_field(
                syntax::nodes_shown(nodes@),
                at as int,
                stop as int,
                "name"@,
            ) is None,
            identifier_sibling(syntax::nodes_shown(nodes@), at + 1, stop as int)
                == identifier_sibling(syntax::nodes_shown(nodes@), child as int, stop as int),
        decreases stop - child,
    {
        assert(syntax::nodes_shown(nodes@)[child as int] == nodes@[child as int]@);
        if nodes[child].named && (syntax::is_kind(&nodes[child], "identifier") || syntax::is_kind(
            &nodes[child],
            "type_identifier",
        )) {
            return Some(child);
        }
        child = syntax::node_end(nodes, child, stop);
    }
    None
}

/// The kind of symbol that a node defines, other than an implementation.
fn symbol_kind(node: &SyntaxNode, in_impl: bool) -> (kind: Option<SymbolKind>)
    ensures
        kind == defined_kind(node@.kind, in_impl),
{
    if syntax::is_kind(node, "mod_item") {
        Some(SymbolKind::Module)
    } else if syntax::is_kind(node, "function_item") {
        if in_impl {
            Some(SymbolKind::Method)
        } else {
            Some(SymbolKind::Function)
        }
    } else if syntax::is_kind(node, "function_signature_item") {
        Some(SymbolKind::Method)
    } else if syntax::is_kind(node, "struct_item") {
        Some(SymbolKind::Struct)
    } else if syntax::is_kind(node, "enum_item") {
        Some(SymbolKind::Enum)
    } else if syntax::is_kind(node, "trait_item") {
        Some(SymbolKind::Trait)
    } else if syntax::is_kind(node, "type_item") || syntax::is_kind(node, "associated_type") {
        Some(SymbolKind::TypeAlias)
    } else if syntax::is_kind(node, "const_item") {
        Some(SymbolKind::Constant)
    } else if syntax::is_kind(node, "static_item") {
        Some(SymbolKind::Static)
    } else if syntax::is_kind(node, "macro_definition") {
        Some(SymbolKind::Macro)
    } else {
        None
    }
}

/// What a definition is called, of what kind it is, and the node of its name.
struct SymbolDescriptor {
    name: String,
    kind: SymbolKind,
    name_node: Option<usize>,
}

impl View for SymbolDescriptor {
    type V = Definition;

    closed spec fn view(&self) -> Definition {
        Definition {
            name: self.name@,
            kind: parser::kind_shown(self.kind),
            name_node: match self.name_node {
                Some(child) => Some(child as int),
                None => None,
            },
        }
    }
}

/// Tests whether an attribute stands in a text without blanks.
fn find_attribute(compact: &str, name: &str) -> (found: bool)
    ensures
        found == has_attribute(compact@, name@),
{
    let mut alone = "#[".to_owned();
    alone.push_str(name);
    alone.push_str("]");
    let mut last = "::".to_owned();
    last.push_str(name);
    last.push_str("]");
    let mut called = "::".to_owned();
    called.push_str(name);
    called.push_str("(");
    text::contains_text(compact, alone.as_str()) || text::contains_text(compact, last.as_str())
        || text::contains_text(compact, called.as_str())
}

pub open spec fn strings_shown(list: Seq<String>) -> Seq<Seq<char>> {
    list.map_values(|item: String| item@)
}

/// What stands before the name of a function, without blanks.
fn compact_prefix(attributes: &Vec<String>, prefix: &str) -> (compact: String)
    ensures
        compact@ == wrap::without_blanks(
            concatenated(strings_shown(attributes@)) + prefix@,
        ),
{
    let mut whole = String::new();
    let ghost list = strings_shown(attributes@);
    let mut index: usize = 0;
    assert(list.take(0) =~= Seq::empty());
    while index < attributes.len()
        invariant
            index <= attributes@.len(),
            list == strings_shown(attributes@),
            whole@ == concatenated(list.take(index as int)),
        decreases attributes@.len() - index,
    {
        assert(list.take(index + 1).drop_last() =~= list.take(index as int));
        whole.push_str(attributes[index].as_str());
        index = index + 1;
    }
    assert(list.take(attributes@.len() as int) =~= list);
    whole.push_str(prefix);
    wrap::compact_text(whole.as_str())
}

/// Tests whether a name is a single identifier.
fn is_simple_identifier(name: &str) -> (simple: bool)
    ensures
        simple == is_simple(name@),
{
    let chars = text::chars_of(name);
    let raw: [char; 2] = ['r', '#'];
    assert(raw@ =~= seq!['r', '#']);
    let start: usize = if text::chars_start_with(chars.as_slice(), raw.as_slice()) {
        2
    } else {
        0
    };
    let ghost own = plain_name(name@);
    assert(own =~= name@.skip(start as int));
    if start == chars.len() {
        return false;
    }
    let mut index: usize = start;
    while index < chars.len()
        invariant
            start <= index <= chars@.len(),
            chars@ == name@,
            own == plain_name(name@),
            own == name@.skip(start as int),
            forall|i: int|
                0 <= i < index - start ==> #[trigger] own[i] == '_' || text::alphanumeric(own[i]),
        decreases chars@.len() - index,
    {
        assert(own[index - start] == chars@[index as int]);
        if chars[index] != '_' && !text::is_alphanumeric(chars[index]) {
            return false;
        }
        index = index + 1;
    }
    true
}

/// The target and the alias of an import.
fn split_import_alias(target: &str) -> (parts: (String, Option<String>))
    ensures
        parts.0@ == import_parts(target@).0,
        match parts.1 {
            Some(alias) => import_parts(target@).1 == Some(alias@),
            None => import_parts(target@).1 is None,
        },
{
    let chars = text::chars_of(target);
    if text::chars_contain(chars.as_slice(), '{') {
        return (target.to_owned(), None);
    }
    let middle = text::chars_of(" as ");
    match text::find_last(chars.as_slice(), middle.as_slice()) {
        None => (target.to_owned(), None),
        Some(at) => {
            let name = vstd::slice::slice_subrange(chars.as_slice(), 0, at);
            let alias = vstd::slice::slice_subrange(
                chars.as_slice(),
                at + middle.len(),
                chars.len(),
            );
            assert(name@ =~= target@.take(at as int));
            assert(alias@ =~= target@.skip(at + " as "@.len()));
            (
                text::string_of(text::trim_chars(name)),
                Some(text::string_of(text::trim_chars(alias))),
            )
        },
    }
}

/// Collects what a file defines, imports, calls and refers to.
struct Extractor<'source> {
    source: &'source str,
    module: String,
    symbols: Vec<ParsedSymbol>,
    imports: Vec<ParsedImport>,
    references: Vec<ParsedReference>,
    calls: Vec<ParsedCall>,
    entry_points: Vec<ParsedEntryPoint>,
    context: Vec<String>,
}

impl<'source> Extractor<'source> {
    spec fn found(self) -> Found {
        Found {
            symbols: parser::symbols_shown(self.symbols@),
            imports: parser::imports_shown(self.imports@),
            references: parser::references_shown(self.references@),
            calls: parser::calls_shown(self.calls@),
            entry_points: parser::entries_shown(self.entry_points@),
            context: strings_shown(self.context@),
        }
    }

    spec fn given(self, nodes: Seq<SyntaxNode>) -> Given {
        Given {
            nodes: syntax::nodes_shown(nodes),
            source: self.source@,
            module: self.module@,
        }
    }

    /// Finds what a node defines.
    fn symbol_descriptor(
        &self,
        nodes: &Vec<SyntaxNode>,
        at: usize,
        stop: usize,
        in_impl: bool,
    ) -> (described: Result<Option<SymbolDescriptor>, String>)
        requires
            at < stop <= nodes@.len(),
        ensures
            match described {
                Ok(Some(descriptor)) => definition_of(
                    self.given(nodes@),
                    at as int,
                    stop as int,
                    in_impl,
                ) == Ok::<Option<Definition>, Seq<char>>(Some(descriptor@)) && (
                descriptor.name_node matches Some(child) ==> at < child < stop),
                Ok(None) => definition_of(
                    self.given(nodes@),
                    at as int,
                    stop as int,
                    in_impl,
                ) == Ok::<Option<Definition>, Seq<char>>(None),
                Err(message) => definition_of(
                    self.given(nodes@),
                    at as int,
                    stop as int,
                    in_impl,
                ) == Err::<Option<Definition>, Seq<char>>(message@),
            },
    {
        let node = &nodes[at];
        assert(syntax::nodes_shown(nodes@)[at as int] == node@);
        if syntax::is_kind(node, "impl_item") {
            let body = syntax::find_field(nodes, at, stop, "body");
            let end = match body {
                Some(child) => {
                    assert(syntax::nodes_shown(nodes@)[child as int] == nodes@[child as int]@);
                    nodes[child].start_byte
                },
                None => node.end_byte,
            };
            return match text::text_between(self.source, node.start_byte, end) {
                None => Err("impl header is not a valid UTF-8 range".to_owned()),
                Some(header) => Ok(
                    Some(
                        SymbolDescriptor {
                            name: wrap::single_spaced(header),
                            kind: SymbolKind::Other("impl".to_owned()),
                            name_node: None,
                        },
                    ),
                ),
            };
        }
        let kind = match symbol_kind(node, in_impl) {
            Some(kind) => kind,
            None => {
                return Ok(None);
            },
        };
        match definition_name(nodes, at, stop) {
            None => {
                let mut message = node.kind.clone();
                message.push_str(" at byte ");
                text::push_decimal(&mut message, node.start_byte as u64);
                message.push_str(" has no definition name");
                Err(message)
            },
            Some(child) => {
                assert(syntax::nodes_shown(nodes@)[child as int] == nodes@[child as int]@);
                match read_text(&nodes[child], self.source) {
                    Err(message) => Err(message),
                    Ok(name) => Ok(
                        Some(
                            SymbolDescriptor {
                                name: name.to_owned(),
                                kind,
                                name_node: Some(child),
                            },
                        ),
                    ),
                }
            },
        }
    }

    fn qualified_name(&self, name: &str) -> (qualified: String)
        ensures
            qualified@ == path_of(self.module@, self.found().context) + "::"@ + name@,
    {
        let mut qualified = self.module.clone();
        let ghost context = strings_shown(self.context@);
        let mut index: usize = 0;
        assert(context.take(0) =~= Seq::empty());
        while index < self.context.len()
            invariant
                index <= self.context@.len(),
                context == strings_shown(self.context@),
                qualified@ == path_of(self.module@, context.take(index as int)),
            decreases self.context@.len() - index,
        {
            assert(context.take(index + 1).drop_last() =~= context.take(index as int));
            qualified.push_str("::");
            qualified.push_str(self.context[index].as_str());
            index = index + 1;
        }
        assert(context.take(self.context@.len() as int) =~= context);
        qualified.push_str("::");
        qualified.push_str(name);
        qualified
    }

    /// Adds the entry point that a function is.
    fn extract_entry_point(
        &mut self,
        nodes: &Vec<SyntaxNode>,
        at: usize,
        descriptor: &SymbolDescriptor,
        symbol: &ParsedSymbol,
        attributes: &Vec<String>,
    ) -> (outcome: Result<(), String>)
        requires
            at < nodes@.len(),
            descriptor.name_node matches Some(child) ==> child < nodes@.len(),
        ensures
            final(self).given(nodes@) == old(self).given(nodes@),
            match outcome {
                Ok(()) => with_entry(
                    old(self).found().entry_points,
                    old(self).given(nodes@),
                    at as int,
                    descriptor@,
                    symbol@,
                    strings_shown(attributes@),
                ) == Ok::<Seq<EntryShown>, Seq<char>>(final(self).found().entry_points)
                    && final(self).found() == (Found {
                    entry_points: final(self).found().entry_points,
                    ..old(self).found()
                }),
                Err(message) => with_entry(
                    old(self).found().entry_points,
                    old(self).given(nodes@),
                    at as int,
                    descriptor@,
                    symbol@,
                    strings_shown(attributes@),
                ) == Err::<Seq<EntryShown>, Seq<char>>(message@),
            },
    {
        let is_function = match descriptor.kind {
            SymbolKind::Function => true,
            _ => false,
        };
        let is_method = match descriptor.kind {
            SymbolKind::Method => true,
            _ => false,
        };
        if !is_function && !is_method {
            return Ok(());
        }
        let name = match descriptor.name_node {
            Some(child) => child,
            None => {
                return Ok(());
            },
        };
        assert(syntax::nodes_shown(nodes@)[at as int] == nodes@[at as int]@);
        assert(syntax::nodes_shown(nodes@)[name as int] == nodes@[name as int]@);
        let prefix = match text::text_between(
            self.source,
            nodes[at].start_byte,
            nodes[name].start_byte,
        ) {
            Some(prefix) => prefix,
            None => {
                return Err("function attribute range is not valid UTF-8".to_owned());
            },
        };
        let compact = compact_prefix(attributes, prefix);
        let kind = if find_attribute(compact.as_str(), "bench") {
            Some(EntryPointKind::Benchmark)
        } else if find_attribute(compact.as_str(), "test") {
            Some(EntryPointKind::Test)
        } else if is_function && (text::same_text(symbol.name.as_str(), "main") || find_attribute(
            compact.as_str(),
            "main",
        )) {
            Some(EntryPointKind::Executable)
        } else {
            None
        };
        match kind {
            Some(kind) => {
                self.entry_points.push(
                    ParsedEntryPoint {
                        kind,
                        label: symbol.name.clone(),
                        symbol_id: Some(symbol.local_id),
                        span: symbol.span,
                    },
                );
                assert(self.found().entry_points =~= old(self).found().entry_points.push(
                    self.entry_points@.last()@,
                ));
            },
            None => {},
        }
        Ok(())
    }

    /// Adds a definition, which is then the innermost one.
    fn define(
        &mut self,
        nodes: &Vec<SyntaxNode>,
        at: usize,
        descriptor: SymbolDescriptor,
        enclosing: Option<ParsedSymbolId>,
        attributes: &Vec<String>,
    ) -> (defined: Result<ParsedSymbolId, String>)
        requires
            at < nodes@.len(),
            descriptor.name_node matches Some(child) ==> child < nodes@.len(),
        ensures
            final(self).given(nodes@) == old(self).given(nodes@),
            match defined {
                Ok(id) => old(self).found().with_definition(
                    old(self).given(nodes@),
                    at as int,
                    descriptor@,
                    enclosing,
                    strings_shown(attributes@),
                ) == Ok::<Found, Seq<char>>(final(self).found()) && id == ParsedSymbolId(
                    old(self).found().symbols.len() as u32,
                ),
                Err(message) => old(self).found().with_definition(
                    old(self).given(nodes@),
                    at as int,
                    descriptor@,
                    enclosing,
                    strings_shown(attributes@),
                ) == Err::<Found, Seq<char>>(message@),
            },
    {
        assert(syntax::nodes_shown(nodes@)[at as int] == nodes@[at as int]@);
        if self.symbols.len() > u32::MAX as usize {
            return Err("Rust file contains more than u32::MAX symbols".to_owned());
        }
        let local_id = ParsedSymbolId(self.symbols.len() as u32);
        let span = match read_span(&nodes[at]) {
            Ok(span) => span,
            Err(message) => {
                return Err(message);
            },
        };
        let symbol = ParsedSymbol {
            local_id,
            name: descriptor.name.clone(),
            qualified_name: self.qualified_name(descriptor.name.as_str()),
            kind: descriptor.kind.clone(),
            span,
            parent_id: enclosing,
        };
        match self.extract_entry_point(nodes, at, &descriptor, &symbol, attributes) {
            Ok(()) => {},
            Err(message) => {
                return Err(message);
            },
        }
        self.symbols.push(symbol);
        self.context.push(descriptor.name);
        assert(self.found().symbols =~= old(self).found().symbols.push(symbol@));
        assert(self.found().context =~= old(self).found().context.push(descriptor@.name));
        Ok(local_id)
    }

    /// Adds an import.
    fn extract_import(&mut self, nodes: &Vec<SyntaxNode>, at: usize, stop: usize) -> (outcome:
        Result<(), String>)
        requires
            at < stop <= nodes@.len(),
        ensures
            final(self).given(nodes@) == old(self).given(nodes@),
            match outcome {
                Ok(()) => old(self).found().with_import(
                    old(self).given(nodes@),
                    at as int,
                    stop as int,
                ) == Ok::<Found, Seq<char>>(final(self).found()),
                Err(message) => old(self).found().with_import(
                    old(self).given(nodes@),
                    at as int,
                    stop as int,
                ) == Err::<Found, Seq<char>>(message@),
            },
    {
        assert(syntax::nodes_shown(nodes@)[at as int] == nodes@[at as int]@);
        let argument = match syntax::find_field(nodes, at, stop, "argument") {
            Some(child) => Some(child),
            None => last_import_child(nodes, at, stop),
        };
        let child = match argument {
            Some(child) => child,
            None => {
                let mut message = "use declaration at byte ".to_owned();
                text::push_decimal(&mut message, nodes[at].start_byte as u64);
                message.push_str(" has no target");
                return Err(message);
            },
        };
        assert(syntax::nodes_shown(nodes@)[child as int] == nodes@[child as int]@);
        let raw_target = match read_text(&nodes[child], self.source) {
            Ok(found) => text::trimmed_text(found),
            Err(message) => {
                return Err(message);
            },
        };
        let span = match read_span(&nodes[at]) {
            Ok(span) => span,
            Err(message) => {
                return Err(message);
            },
        };
        let (target, alias) = split_import_alias(raw_target.as_str());
        self.imports.push(ParsedImport { target, span, alias });
        assert(self.found().imports =~= old(self).found().imports.push(self.imports@.last()@));
        Ok(())
    }

    /// Adds a call.
    fn extract_call(
        &mut self,
        nodes: &Vec<SyntaxNode>,
        at: usize,
        stop: usize,
        caller_id: Option<ParsedSymbolId>,
    ) -> (outcome: Result<(), String>)
        requires
            at < stop <= nodes@.len(),
        ensures
            final(self).given(nodes@) == old(self).given(nodes@),
            match outcome {
                Ok(()) => old(self).found().with_call(
                    old(self).given(nodes@),
                    at as int,
                    stop as int,
                    caller_id,
                ) == Ok::<Found, Seq<char>>(final(self).found()),
                Err(message) => old(self).found().with_call(
                    old(self).given(nodes@),
                    at as int,
                    stop as int,
                    caller_id,
                ) == Err::<Found, Seq<char>>(message@),
            },
    {
        assert(syntax::nodes_shown(nodes@)[at as int] == nodes@[at as int]@);
        let function = match syntax::find_field(nodes, at, stop, "function") {
            Some(child) => Some(child),
            None => syntax::first_named_child(nodes, at, stop),
        };
        let child = match function {
            Some(child) => child,
            None => {
                let mut message = "call at byte ".to_owned();
                text::push_decimal(&mut message, nodes[at].start_byte as u64);
                message.push_str(" has no function");
                return Err(message);
            },
        };
        assert(syntax::nodes_shown(nodes@)[child as int] == nodes@[child as int]@);
        let target = match read_text(&nodes[child], self.source) {
            Ok(found) => text::trimmed_text(found),
            Err(message) => {
                return Err(message);
            },
        };
        let span = match read_span(&nodes[at]) {
            Ok(span) => span,
            Err(message) => {
                return Err(message);
            },
        };
        self.calls.push(
            ParsedCall {
                caller_id,
                target: ParsedTarget::Unresolved(target),
                span,
                confidence: None,
            },
        );
        assert(self.found().calls =~= old(self).found().calls.push(self.calls@.last()@));
        Ok(())
    }

    /// Adds a reference.
    fn extract_reference(
        &mut self,
        nodes: &Vec<SyntaxNode>,
        at: usize,
        source_id: Option<ParsedSymbolId>,
    ) -> (outcome: Result<(), String>)
        requires
            at < nodes@.len(),
        ensures
            final(self).given(nodes@) == old(self).given(nodes@),
            match outcome {
                Ok(()) => old(self).found().with_reference(
                    old(self).given(nodes@),
                    at as int,
                    source_id,
                ) == Ok::<Found, Seq<char>>(final(self).found()),
                Err(message) => old(self).found().with_reference(
                    old(self).given(nodes@),
                    at as int,
                    source_id,
                ) == Err::<Found, Seq<char>>(message@),
            },
    {
        assert(syntax::nodes_shown(nodes@)[at as int] == nodes@[at as int]@);
        let name = match read_text(&nodes[at], self.source) {
            Ok(found) => found.to_owned(),
            Err(message) => {
                return Err(message);
            },
        };
        let span = match read_span(&nodes[at]) {
            Ok(span) => span,
            Err(message) => {
                return Err(message);
            },
        };
        self.references.push(
            ParsedReference {
                source_id,
                target: ParsedTarget::Unresolved(name),
                kind: ReferenceKind::Read,
                span,
            },
        );
        assert(self.found().references =~= old(self).found().references.push(
            self.references@.last()@,
        ));
        Ok(())
    }

    /// Adds what a node itself is: a call or a reference.
    fn extract_use(
        &mut self,
        nodes: &Vec<SyntaxNode>,
        at: usize,
        stop: usize,
        enclosing: Option<ParsedSymbolId>,
        is_name: bool,
    ) -> (outcome: Result<(), String>)
        requires
            at < stop <= nodes@.len(),
        ensures
            final(self).given(nodes@) == old(self).given(nodes@),
            match outcome {
                Ok(()) => old(self).found().with_use(
                    old(self).given(nodes@),
                    at as int,
                    stop as int,
                    enclosing,
                    is_name,
                ) == Ok::<Found, Seq<char>>(final(self).found()),
                Err(message) => old(self).found().with_use(
                    old(self).given(nodes@),
                    at as int,
                    stop as int,
                    enclosing,
                    is_name,
                ) == Err::<Found, Seq<char>>(message@),
            },
    {
        assert(syntax::nodes_shown(nodes@)[at as int] == nodes@[at as int]@);
        if syntax::is_kind(&nodes[at], "call_expression") {
            self.extract_call(nodes, at, stop, enclosing)
        } else if syntax::is_kind(&nodes[at], "identifier") && !is_name {
            self.extract_reference(nodes, at, enclosing)
        } else {
            Ok(())
        }
    }

    /// Collects what a node and all below it hold.
    fn visit(
        &mut self,
        nodes: &Vec<SyntaxNode>,
        at: usize,
        stop: usize,
        enclosing: Option<ParsedSymbolId>,
        attributes: &Vec<String>,
        in_impl: bool,
        is_name: bool,
    ) -> (outcome: Result<(), String>)
        requires
            at < stop <= nodes@.len(),
        ensures
            final(self).given(nodes@) == old(self).given(nodes@),
            match outcome {
                Ok(()) => visited(
                    old(self).given(nodes@),
                    at as int,
                    stop as int,
                    enclosing,
                    strings_shown(attributes@),
                    in_impl,
                    is_name,
                    old(self).found(),
                ) == Ok::<Found, Seq<char>>(final(self).found()),
                Err(message) => visited(
                    old(self).given(nodes@),
                    at as int,
                    stop as int,
                    enclosing,
                    strings_shown(attributes@),
                    in_impl,
                    is_name,
                    old(self).found(),
                ) == Err::<Found, Seq<char>>(message@),
            },
        decreases stop - at, 0int,
    {
        assert(syntax::nodes_shown(nodes@)[at as int] == nodes@[at as int]@);
        if syntax::is_kind(&nodes[at], "attribute_item") {
            return Ok(());
        }
        if syntax::is_kind(&nodes[at], "use_declaration") {
            return self.extract_import(nodes, at, stop);
        }
        let below = if syntax::is_kind(&nodes[at], "impl_item") || syntax::is_kind(
            &nodes[at],
            "trait_item",
        ) {
            true
        } else if syntax::is_kind(&nodes[at], "source_file") || syntax::is_kind(
            &nodes[at],
            "mod_item",
        ) {
            false
        } else {
            in_impl
        };
        let described = match self.symbol_descriptor(nodes, at, stop, in_impl) {
            Ok(described) => described,
            Err(message) => {
                return Err(message);
            },
        };
        match described {
            None => {
                match self.extract_use(nodes, at, stop, enclosing, is_name) {
                    Ok(()) => {},
                    Err(message) => {
                        return Err(message);
                    },
                }
                self.visit_children(nodes, at + 1, stop, enclosing, below, None)
            },
            Some(descriptor) => {
                let name = descriptor.name_node;
                let inner = match self.define(nodes, at, descriptor, enclosing, attributes) {
                    Ok(id) => Some(id),
                    Err(message) => {
                        return Err(message);
                    },
                };
                match self.extract_use(nodes, at, stop, inner, is_name) {
                    Ok(()) => {},
                    Err(message) => {
                        return Err(message);
                    },
                }
                let ghost used = self.found();
                match self.visit_children(nodes, at + 1, stop, inner, below, name) {
                    Ok(()) => {},
                    Err(message) => {
                        return Err(message);
                    },
                }
                let ghost seen = self.found();
                proof {
                    lemma_context_below(
                        self.given(nodes@),
                        at + 1,
                        stop as int,
                        inner,
                        Seq::empty(),
                        below,
                        match name {
                            Some(child) => Some(child as int),
                            None => None,
                        },
                        used,
                    );
                }
                self.context.pop();
                assert(self.found().context =~= seen.context.drop_last());
                Ok(())
            },
        }
    }

    /// Collects what siblings and all below them hold.
    fn visit_children(
        &mut self,
        nodes: &Vec<SyntaxNode>,
        first: usize,
        stop: usize,
        enclosing: Option<ParsedSymbolId>,
        in_impl: bool,
        name: Option<usize>,
    ) -> (outcome: Result<(), String>)
        requires
            first <= stop <= nodes@.len(),
        ensures
            final(self).given(nodes@) == old(self).given(nodes@),
            match outcome {
                Ok(()) => visited_children(
                    old(self).given(nodes@),
                    first as int,
                    stop as int,
                    enclosing,
                    Seq::empty(),
                    in_impl,
                    match name {
                        Some(child) => Some(child as int),
                        None => None,
                    },
                    old(self).found(),
                ) == Ok::<Found, Seq<char>>(final(self).found()),
                Err(message) => visited_children(
                    old(self).given(nodes@),
                    first as int,
                    stop as int,
                    enclosing,
                    Seq::empty(),
                    in_impl,
                    match name {
                        Some(child) => Some(child as int),
                        None => None,
                    },
                    old(self).found(),
                ) == Err::<Found, Seq<char>>(message@),
            },
        decreases stop - first, 1int,
    {
        let ghost given = self.given(nodes@);
        let ghost named = match name {
            Some(child) => Some(child as int),
            None => None,
        };
        let ghost whole = visited_children(
            given,
            first as int,
            stop as int,
            enclosing,
            Seq::empty(),
            in_impl,
            named,
            self.found(),
        );
        let mut pending: Vec<String> = Vec::new();
        let mut child: usize = first;
        assert(strings_shown(pending@) =~= Seq::empty());
        while child < stop
            invariant
                first <= child <= stop <= nodes@.len(),
                self.given(nodes@) == given,
                given == old(self).given(nodes@),
                whole == visited_children(
                    given,
                    first as int,
                    stop as int,
                    enclosing,
                    Seq::empty(),
                    in_impl,
                    named,
                    old(self).found(),
                ),
                given.nodes == syntax::nodes_shown(nodes@),
                given.source == self.source@,
                named == (match name {
                    Some(child) => Some(child as int),
                    None => None,
                }),
                whole == visited_children(
                    given,
                    child as int,
                    stop as int,
                    enclosing,
                    strings_shown(pending@),
                    in_impl,
                    named,
                    self.found(),
                ),
            decreases stop - child,
        {
            let next = syntax::node_end(nodes, child, stop);
            let node = &nodes[child];
            assert(syntax::nodes_shown(nodes@)[child as int] == node@);
            if !node.named || syntax::is_kind(node, "line_comment") || syntax::is_kind(
                node,
                "block_comment",
            ) {
            } else if syntax::is_kind(node, "attribute_item") {
                match read_text(node, self.source) {
                    Ok(attribute) => {
                        let ghost before = strings_shown(pending@);
                        pending.push(attribute.to_owned());
                        assert(strings_shown(pending@) =~= before.push(attribute@));
                    },
                    Err(message) => {
                        return Err(message);
                    },
                }
            } else {
                let is_name = match name {
                    Some(wanted) => wanted == child,
                    None => false,
                };
                match self.visit(nodes, child, next, enclosing, &pending, in_impl, is_name) {
                    Ok(()) => {},
                    Err(message) => {
                        return Err(message);
                    },
                }
                pending.clear();
                assert(strings_shown(pending@) =~= Seq::empty());
            }
            child = next;
        }
        Ok(())
    }
}

/// Finds the last child that can be the target of an import.
fn last_import_child(nodes: &Vec<SyntaxNode>, at: usize, stop: usize) -> (found: Option<usize>)
    requires
        at < stop <= nodes@.len(),
    ensures
        match found {
            Some(child) => import_sibling(
                syntax::nodes_shown(nodes@),
                at + 1,
                stop as int,
                None,
            ) == Some(child as int) && at < child < stop,
            None => import_sibling(syntax::nodes_shown(nodes@), at + 1, stop as int, None) is None,
        },
{
    let mut last: Option<usize> = None;
    let mut child: usize = at + 1;
    while child < stop
        invariant
            at < child <= stop <= nodes@.len(),
            last matches Some(found) ==> at < found < stop,
            import_sibling(syntax::nodes_shown(nodes@), at + 1, stop as int, None)
                == import_sibling(
                syntax::nodes_shown(nodes@),
                child as int,
                stop as int,
                match last {
                    Some(found) => Some(found as int),
                    None => None,
                },
            ),
        decreases stop - child,
    {
        assert(syntax::nodes_shown(nodes@)[child as int] == nodes@[child as int]@);
        if nodes[child].named && !syntax::is_kind(&nodes[child], "visibility_modifier")
            && !syntax::is_kind(&nodes[child], "attribute_item") {
            last = Some(child);
        }
        child = syntax::node_end(nodes, child, stop);
    }
    last
}

/// Tests whether a kind of symbol can be called.
fn can_be_called(kind: &SymbolKind) -> (callable: bool)
    ensures
        callable == is_callable(parser::kind_shown(*kind)),
{
    match kind {
        SymbolKind::Function | SymbolKind::Method => true,
        _ => false,
    }
}

/// Finds the one symbol with a name.
fn find_only(symbols: &Vec<ParsedSymbol>, name: &str, callable_only: bool) -> (found: Option<
    ParsedSymbolId,
>)
    ensures
        ({
            let list = candidates(parser::symbols_shown(symbols@), name@, callable_only);
            match found {
                Some(id) => list.len() == 1 && list[0] == id,
                None => list.len() != 1,
            }
        }),
{
    let ghost shown = parser::symbols_shown(symbols@);
    let mut only: Option<ParsedSymbolId> = None;
    let mut many = false;
    let mut index: usize = 0;
    assert(shown.take(0) =~= Seq::empty());
    while index < symbols.len()
        invariant
            index <= symbols@.len(),
            shown == parser::symbols_shown(symbols@),
            ({
                let list = candidates(shown.take(index as int), name@, callable_only);
                if many {
                    list.len() > 1
                } else {
                    match only {
                        Some(id) => list.len() == 1 && list[0] == id,
                        None => list.len() == 0,
                    }
                }
            }),
        decreases symbols@.len() - index,
    {
        assert(shown.take(index + 1).drop_last() =~= shown.take(index as int));
        assert(shown.take(index + 1).last() == symbols@[index as int]@);
        let symbol = &symbols[index];
        if text::same_text(symbol.name.as_str(), name) && (!callable_only || can_be_called(
            &symbol.kind,
        )) {
            if only.is_some() {
                many = true;
            } else {
                only = Some(symbol.local_id);
            }
        }
        index = index + 1;
    }
    assert(shown.take(symbols@.len() as int) =~= shown);
    if many {
        None
    } else {
        only
    }
}

/// Finds the symbol of the file that a target is.
fn resolve_target(target: &ParsedTarget, symbols: &Vec<ParsedSymbol>, callable_only: bool) -> (
found: Option<ParsedSymbolId>)
    ensures
        match found {
            Some(id) => resolved(target@, parser::symbols_shown(symbols@), callable_only)
                == TargetShown::Local(id),
            None => resolved(target@, parser::symbols_shown(symbols@), callable_only) == target@,
        },
{
    match target {
        ParsedTarget::Local(_) => None,
        ParsedTarget::Unresolved(name) => {
            if is_simple_identifier(name.as_str()) {
                find_only(symbols, name.as_str(), callable_only)
            } else {
                None
            }
        },
    }
}

impl<'source> Extractor<'source> {
    /// Resolves the targets that the file defines itself.
    fn resolve_local_targets(&mut self)
        ensures
            final(self).found() == (Found {
                references: resolved_references(old(self).found()),
                calls: resolved_calls(old(self).found()),
                ..old(self).found()
            }),
    {
        let ghost before = self.found();
        let mut index: usize = 0;
        while index < self.references.len()
            invariant
                index <= self.references@.len(),
                self.references@.len() == before.references.len(),
                before == old(self).found(),
                self.found() == (Found { references: self.found().references, ..before }),
                forall|i: int|
                    0 <= i < index ==> (#[trigger] self.references@[i])@ == resolved_references(
                        before,
                    )[i],
                forall|i: int|
                    index <= i < before.references.len() ==> (#[trigger] self.references@[i])@
                        == before.references[i],
            decreases self.references@.len() - index,
        {
            assert(self.references@[index as int]@ == before.references[index as int]);
            match resolve_target(&self.references[index].target, &self.symbols, false) {
                Some(id) => {
                    self.references[index].target = ParsedTarget::Local(id);
                },
                None => {},
            }
            index = index + 1;
        }
        assert(self.found().references =~= resolved_references(before));
        let ghost middle = self.found();
        let mut position: usize = 0;
        while position < self.calls.len()
            invariant
                position <= self.calls@.len(),
                self.calls@.len() == before.calls.len(),
                middle == (Found { references: resolved_references(before), ..before }),
                self.found() == (Found { calls: self.found().calls, ..middle }),
                forall|i: int|
                    0 <= i < position ==> (#[trigger] self.calls@[i])@ == resolved_calls(before)[i],
                forall|i: int|
                    position <= i < before.calls.len() ==> (#[trigger] self.calls@[i])@
                        == before.calls[i],
            decreases self.calls@.len() - position,
        {
            assert(self.calls@[position as int]@ == before.calls[position as int]);
            match resolve_target(&self.calls[position].target, &self.symbols, true) {
                Some(id) => {
                    self.calls[position].target = ParsedTarget::Local(id);
                },
                None => {},
            }
            position = position + 1;
        }
        assert(self.found().calls =~= resolved_calls(before));
    }
}

fn refusal(path: &RepositoryPath, message: String) -> (error: ParserError)
    ensures
        error.path == *path,
        error.message == message,
{
    ParserError { path: path.clone(), message }
}

/// Tells what a Rust file holds, given the nodes of its syntax tree.
pub fn extract(path: &RepositoryPath, source: &str, nodes: &Vec<SyntaxNode>) -> (file: Result<
    ParsedFile,
    ParserError,
>)
    requires
        nodes@.len() > 0,
    ensures
        match file {
            Ok(file) => extracted(*path, source@, syntax::nodes_shown(nodes@)) == Ok::<
                FileShown,
                Seq<char>,
            >(file@),
            Err(error) => error.path == *path && extracted(
                *path,
                source@,
                syntax::nodes_shown(nodes@),
            ) == Err::<FileShown, Seq<char>>(error.message@),
        },
{
    let root = &nodes[0];
    assert(syntax::nodes_shown(nodes@)[0] == root@);
    if root.has_error {
        return Err(refusal(path, "source contains Rust syntax errors".to_owned()));
    }
    let module = match file_module(path.as_str(), root) {
        Ok(module) => module,
        Err(message) => {
            return Err(refusal(path, message));
        },
    };
    let mut entry_points: Vec<ParsedEntryPoint> = Vec::new();
    let chars = text::chars_of(path.as_str());
    let parts = text::split_chars(chars.as_slice(), '/');
    proof {
        text::lemma_split_ends(path@, '/');
    }
    assert(text::split_on(path@, '/').last() == parts@.last()@);
    if is_text(parts[parts.len() - 1], "lib.rs") {
        match module.span {
            Some(span) => {
                entry_points.push(
                    ParsedEntryPoint {
                        kind: EntryPointKind::Library,
                        label: "library crate".to_owned(),
                        symbol_id: None,
                        span,
                    },
                );
            },
            None => {},
        }
    }
    assert(parser::entries_shown(entry_points@) =~= library_entries(path@, module@.span->0));
    let mut extractor = Extractor {
        source,
        module: module.qualified_name.clone(),
        symbols: Vec::new(),
        imports: Vec::new(),
        references: Vec::new(),
        calls: Vec::new(),
        entry_points,
        context: Vec::new(),
    };
    let none: Vec<String> = Vec::new();
    assert(strings_shown(none@) =~= Seq::empty());
    let ghost start = extractor.found();
    assert(start =~~= Found {
        symbols: Seq::empty(),
        imports: Seq::empty(),
        references: Seq::empty(),
        calls: Seq::empty(),
        entry_points: library_entries(path@, module@.span->0),
        context: Seq::empty(),
    });
    match extractor.visit(nodes, 0, nodes.len(), None, &none, false, false) {
        Ok(()) => {},
        Err(message) => {
            return Err(refusal(path, message));
        },
    }
    extractor.resolve_local_targets();
    Ok(
        ParsedFile {
            path: path.clone(),
            language: Language::Rust,
            module: Some(module),
            symbols: extractor.symbols,
            imports: extractor.imports,
            references: extractor.references,
            calls: extractor.calls,
            entry_points: extractor.entry_points,
        },
    )
}

/// Parses Rust source files into language-neutral records.
#[derive(Debug, Clone, Copy)]
pub struct RustParser;

/// Explicit adapter-style alias for [`RustParser`].
pub type RustParserAdapter = RustParser;

impl Default for RustParser {
    fn default() -> (parser: RustParser)
        ensures
            parser == RustParser,
    {
        RustParser
    }
}

impl RustParser {
    /// Creates a Rust parser adapter.
    #[must_use]
    pub fn new() -> (parser: RustParser)
        ensures
            parser == RustParser,
    {
        RustParser
    }
}

/// What parsing a Rust file comes to.
pub open spec fn parsed(path: RepositoryPath, source: Seq<char>) -> Result<FileShown, Seq<char>> {
    match syntax::syntax_of(Grammar::Rust, source) {
        Err(reason) => Err("failed to load grammar: "@ + reason),
        Ok(None) => Err("tree-sitter returned no syntax tree"@),
        Ok(Some(nodes)) => extracted(path, source, nodes),
    }
}

impl ParserAdapter for RustParser {
    fn language(&self) -> (language: Language)
        ensures
            language == Language::Rust,
    {
        Language::Rust
    }

    fn parse(&self, input: ParseInput<'_>) -> (file: Result<ParsedFile, ParserError>)
        ensures
            match file {
                Ok(file) => parsed(*input.path, input.source@) == Ok::<FileShown, Seq<char>>(file@),
                Err(error) => error.path == *input.path && parsed(*input.path, input.source@)
                    == Err::<FileShown, Seq<char>>(error.message@),
            },
    {
        match syntax::parse_source(Grammar::Rust, input.source) {
            Err(reason) => {
                let mut message = "failed to load grammar: ".to_owned();
                message.push_str(reason.as_str());
                Err(refusal(input.path, message))
            },
            Ok(None) => Err(
                refusal(input.path, "tree-sitter returned no syntax tree".to_owned()),
            ),
            Ok(Some(nodes)) => extract(input.path, input.source, &nodes),
        }
    }
}

} // verus!
