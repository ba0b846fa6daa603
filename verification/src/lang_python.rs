//! What Python source files define, import, call and refer to.
use crate::ir::{EntryPointKind, Language, ReferenceKind, SymbolKind};
use crate::parser;
use crate::parser::{
    CallShown, EntryShown, FileShown, ImportShown, KindShown, ModuleShown, ParseInput, ParsedCall,
    ParsedEntryPoint, ParsedFile, ParsedImport, ParsedModule, ParsedReference, ParsedSymbol,
    ParsedSymbolId, ParsedTarget, ParserAdapter, ParserError, ReferenceShown, SymbolShown,
    TargetShown,
};
use crate::path::RepositoryPath;
use crate::sort;
use crate::sort::Ordered;
use crate::source;
use crate::source::SourceSpan;
use crate::syntax;
use crate::syntax::{Grammar, NodeShown, SpanFault, SyntaxNode};
use crate::text;
use crate::wrap;
use std::collections::BTreeMap;
use vstd::prelude::*;
use vstd::slice::slice_subrange;

verus! {

broadcast use vstd::std_specs::btree::group_btree_axioms;

/// The text of a node, or what is said where it has none.
pub open spec fn text_of(node: NodeShown, source: Seq<char>) -> Result<Seq<char>, Seq<char>> {
    let bytes = vstd::utf8::encode_utf8(source);
    if node.start_byte <= node.end_byte <= bytes.len() {
        let own = bytes.subrange(node.start_byte as int, node.end_byte as int);
        if vstd::utf8::valid_utf8(own) {
            Ok(vstd::utf8::decode_utf8(own))
        } else {
            Err("tree-sitter produced an invalid UTF-8 range: "@ + text::utf8_error_text(own))
        }
    } else {
        Err("tree-sitter produced an invalid UTF-8 range: out of bounds"@)
    }
}

/// What is said of a node whose range cannot be told.
pub open spec fn span_fault(node: NodeShown, fault: SpanFault) -> Seq<char> {
    match fault {
        SpanFault::StartLine => "source line exceeds the IR coordinate range"@,
        SpanFault::EndLine => "source line exceeds the IR coordinate range"@,
        SpanFault::StartColumn => "source column exceeds the IR coordinate range"@,
        SpanFault::EndColumn => "source column exceeds the IR coordinate range"@,
        SpanFault::Reversed => "tree-sitter produced an invalid source span: "@
            + source::reversed_text(syntax::node_start(node), syntax::node_stop(node)),
    }
}

/// The range of a node, or what is said where it has none.
pub open spec fn range_of(node: NodeShown) -> Result<parser::Range, Seq<char>> {
    match syntax::span_of(node) {
        Ok(span) => Ok(span),
        Err(fault) => Err(span_fault(node, fault)),
    }
}

fn read_text(node: &SyntaxNode, source: &str) -> (found: Result<String, String>)
    ensures
        match found {
            Ok(found) => text_of(node@, source@) == Ok::<Seq<char>, Seq<char>>(found@),
            Err(message) => text_of(node@, source@) == Err::<Seq<char>, Seq<char>>(message@),
        },
{
    match text::text_between(source, node.start_byte, node.end_byte) {
        Some(found) => {
            proof {
                vstd::utf8::encode_utf8_valid_utf8(found@);
                vstd::utf8::encode_utf8_decode_utf8(found@);
            }
            return Ok(found.to_owned());
        },
        None => {},
    }
    let mut message = "tree-sitter produced an invalid UTF-8 range: ".to_owned();
    let bytes = source.as_bytes();
    if node.start_byte > node.end_byte || node.end_byte > bytes.len() {
        return Err("tree-sitter produced an invalid UTF-8 range: out of bounds".to_owned());
    }
    let mut own: Vec<u8> = Vec::new();
    own.extend_from_slice(slice_subrange(bytes, node.start_byte, node.end_byte));
    assert(own@ =~= vstd::utf8::encode_utf8(source@).subrange(
        node.start_byte as int,
        node.end_byte as int,
    ));
    match text::decode_source(own) {
        Ok(found) => {
            proof {
                vstd::utf8::encode_utf8_decode_utf8(found@);
            }
            Ok(found)
        },
        Err(reason) => {
            message.push_str(reason.as_str());
            Err(message)
        },
    }
}

fn read_span(node: &SyntaxNode) -> (span: Result<SourceSpan, String>)
    ensures
        match span {
            Ok(span) => range_of(node@) == Ok::<parser::Range, Seq<char>>(span@),
            Err(message) => range_of(node@) == Err::<parser::Range, Seq<char>>(message@),
        },
{
    match syntax::node_span(node) {
        Ok(span) => Ok(span),
        Err((fault, reason)) => match fault {
            SpanFault::StartLine | SpanFault::EndLine => Err(
                "source line exceeds the IR coordinate range".to_owned(),
            ),
            SpanFault::StartColumn | SpanFault::EndColumn => Err(
                "source column exceeds the IR coordinate range".to_owned(),
            ),
            SpanFault::Reversed => {
                let mut message = "tree-sitter produced an invalid source span: ".to_owned();
                message.push_str(reason.as_str());
                Err(message)
            },
        },
    }
}

/// What is read: the nodes of a tree, their source, and the name of the module.
pub struct Given {
    pub nodes: Seq<NodeShown>,
    pub source: Seq<char>,
    pub module: Seq<char>,
}

impl Given {
    pub open spec fn text(self, at: int) -> Result<Seq<char>, Seq<char>> {
        text_of(self.nodes[at], self.source)
    }

    pub open spec fn is(self, at: int, kind: Seq<char>) -> bool {
        self.nodes[at].kind == kind
    }

    pub open spec fn field(self, at: int, stop: int, field: Seq<char>) -> Option<int> {
        syntax::child_with_field(self.nodes, at, stop, field)
    }

    /// Where the subtree of a node ends, within `stop`.
    pub open spec fn end(self, at: int, stop: int) -> int {
        syntax::after(self.nodes, at, stop)
    }
}

/// The parts of an attribute with dots between them, if all of them are names.
pub open spec fn dotted(given: Given, at: int, stop: int) -> Result<Option<Seq<char>>, Seq<char>>
    decreases stop - at,
{
    if given.is(at, "identifier"@) {
        match given.text(at) {
            Err(message) => Err(message),
            Ok(name) => Ok(Some(name)),
        }
    } else if !given.is(at, "attribute"@) {
        Ok(None)
    } else {
        match (given.field(at, stop, "object"@), given.field(at, stop, "attribute"@)) {
            (Some(object), Some(attribute)) => {
                proof {
                    syntax::lemma_field_inside(given.nodes, at + 1, stop, "object"@);
                }
                match dotted(given, object, given.end(object, stop)) {
                    Err(message) => Err(message),
                    Ok(None) => Ok(None),
                    Ok(Some(prefix)) => match given.text(attribute) {
                        Err(message) => Err(message),
                        Ok(name) => Ok(Some(prefix + "."@ + name)),
                    },
                }
            },
            _ => Ok(None),
        }
    }
}

/// The name that a node refers to.
pub open spec fn reference_name(given: Given, at: int, stop: int) -> Result<Seq<char>, Seq<char>> {
    let plain = match given.text(at) {
        Err(message) => Err(message),
        Ok(found) => Ok(text::trim(found)),
    };
    if given.is(at, "attribute"@) {
        match dotted(given, at, stop) {
            Err(message) => Err(message),
            Ok(Some(name)) => Ok(name),
            Ok(None) => plain,
        }
    } else {
        plain
    }
}

/// The node that a base class is named by: that of a subscript or of what stands in
/// parentheses.
pub open spec fn base_node(given: Given, at: int, stop: int) -> (int, int) {
    let inner = if given.is(at, "subscript"@) {
        given.field(at, stop, "value"@)
    } else if given.is(at, "parenthesized_expression"@) {
        syntax::named_sibling(given.nodes, at + 1, stop)
    } else {
        None
    };
    match inner {
        Some(child) => (child, given.end(child, stop)),
        None => (at, stop),
    }
}

/// A class or a function that is open.
#[derive(Debug, Clone, Copy, PartialEq, Eq, Structural)]
pub struct ActiveScope {
    pub id: ParsedSymbolId,
    pub is_class: bool,
}

/// What a file defines: its symbols, the scopes that nodes open, and the classes that
/// are test cases.
#[verifier::ext_equal]
pub struct Defined {
    pub symbols: Seq<SymbolShown>,
    pub scopes: Map<usize, ActiveScope>,
    pub test_cases: Seq<ParsedSymbolId>,
}

/// What is defined after a node, and the scope that the node opens.
#[verifier::ext_equal]
pub struct Step {
    pub defined: Defined,
    pub scope: Option<ActiveScope>,
}

/// The ID of the innermost scope.
pub open spec fn innermost(scopes: Seq<ActiveScope>) -> Option<ParsedSymbolId> {
    if scopes.len() == 0 {
        None
    } else {
        Some(scopes.last().id)
    }
}

/// Whether a base class from `at` on is a test case.
pub open spec fn has_test_base(given: Given, at: int, stop: int) -> Result<bool, Seq<char>>
    decreases stop - at,
{
    if at >= stop {
        Ok(false)
    } else {
        let next = given.end(at, stop);
        if !given.nodes[at].named || given.is(at, "keyword_argument"@) {
            has_test_base(given, next, stop)
        } else {
            let base = base_node(given, at, next);
            match reference_name(given, base.0, base.1) {
                Err(message) => Err(message),
                Ok(name) => if name == "TestCase"@ || text::ends_with(name, ".TestCase"@) {
                    Ok(true)
                } else {
                    has_test_base(given, next, stop)
                },
            }
        }
    }
}

/// Whether a class has a test case among its base classes.
pub open spec fn is_test_case(given: Given, at: int, stop: int) -> Result<bool, Seq<char>> {
    match given.field(at, stop, "superclasses"@) {
        None => Ok(false),
        Some(arguments) => has_test_base(given, arguments + 1, given.end(arguments, stop)),
    }
}

/// Whether a name is that of a constant: upper case, digits and underscores, with at
/// least one upper-case letter.
pub open spec fn is_constant_name(name: Seq<char>) -> bool {
    &&& exists|i: int| 0 <= i < name.len() && text::uppercase(#[trigger] name[i])
    &&& forall|i: int|
        0 <= i < name.len() ==> #[trigger] name[i] == '_' || text::uppercase(name[i])
            || text::numeric(name[i])
}

/// Whether an annotation, without blanks, says that a name is final.
pub open spec fn says_final(compact: Seq<char>) -> bool {
    compact == "Final"@ || text::starts_with(compact, "Final["@) || text::ends_with(
        compact,
        ".Final"@,
    ) || text::contains(compact, ".Final["@)
}

/// Whether an assignment has an annotation that says that its name is final.
pub open spec fn is_final(given: Given, at: int, stop: int) -> bool {
    match given.field(at, stop, "type"@) {
        None => false,
        Some(annotation) => match given.text(annotation) {
            Err(_) => false,
            Ok(found) => says_final(wrap::without_blanks(found)),
        },
    }
}

/// Whether a constant with this name is known in a scope.
pub open spec fn knows_constant(
    symbols: Seq<SymbolShown>,
    parent_id: Option<ParsedSymbolId>,
    name: Seq<char>,
) -> bool {
    exists|i: int|
        #![trigger symbols[i]]
        0 <= i < symbols.len() && symbols[i].kind == KindShown::Known(SymbolKind::Constant)
            && symbols[i].parent_id == parent_id && symbols[i].name == name
}

impl Defined {
    /// The full name of what is defined in a scope.
    pub open spec fn qualified(
        self,
        given: Given,
        scopes: Seq<ActiveScope>,
        name: Seq<char>,
    ) -> Seq<char> {
        let prefix = if scopes.len() == 0 {
            given.module
        } else {
            self.symbols[scopes.last().id.0 as int].qualified_name
        };
        prefix + "."@ + name
    }

    /// With one more symbol.
    pub open spec fn with_symbol(
        self,
        given: Given,
        at: int,
        scopes: Seq<ActiveScope>,
        name: Seq<char>,
        kind: SymbolKind,
    ) -> Result<Defined, Seq<char>> {
        if self.symbols.len() > u32::MAX {
            Err("file contains more symbols than local IDs can represent"@)
        } else {
            match range_of(given.nodes[at]) {
                Err(message) => Err(message),
                Ok(span) => Ok(
                    Defined {
                        symbols: self.symbols.push(
                            SymbolShown {
                                local_id: ParsedSymbolId(self.symbols.len() as u32),
                                name,
                                qualified_name: self.qualified(given, scopes, name),
                                kind: KindShown::Known(kind),
                                span,
                                parent_id: innermost(scopes),
                            },
                        ),
                        ..self
                    },
                ),
            }
        }
    }

    /// With a symbol whose node opens a scope.
    pub open spec fn with_scope(
        self,
        given: Given,
        at: int,
        scopes: Seq<ActiveScope>,
        name: Seq<char>,
        kind: SymbolKind,
    ) -> Result<Step, Seq<char>> {
        let scope = ActiveScope {
            id: ParsedSymbolId(self.symbols.len() as u32),
            is_class: kind == SymbolKind::Class,
        };
        match self.with_symbol(given, at, scopes, name, kind) {
            Err(message) => Err(message),
            Ok(next) => Ok(
                Step {
                    defined: Defined { scopes: next.scopes.insert(at as usize, scope), ..next },
                    scope: Some(scope),
                },
            ),
        }
    }

    /// With nothing that opens a scope.
    pub open spec fn flat(self) -> Step {
        Step { defined: self, scope: None }
    }

    /// With a function; without a name it is none.
    pub open spec fn with_function(
        self,
        given: Given,
        at: int,
        stop: int,
        scopes: Seq<ActiveScope>,
    ) -> Result<Step, Seq<char>> {
        match given.field(at, stop, "name"@) {
            None => Ok(self.flat()),
            Some(child) => match given.text(child) {
                Err(message) => Err(message),
                Ok(name) => self.with_scope(
                    given,
                    at,
                    scopes,
                    name,
                    if scopes.len() > 0 && scopes.last().is_class {
                        SymbolKind::Method
                    } else {
                        SymbolKind::Function
                    },
                ),
            },
        }
    }

    /// With a class; without a name it is none.
    pub open spec fn with_class(
        self,
        given: Given,
        at: int,
        stop: int,
        scopes: Seq<ActiveScope>,
    ) -> Result<Step, Seq<char>> {
        match given.field(at, stop, "name"@) {
            None => Ok(self.flat()),
            Some(child) => match given.text(child) {
                Err(message) => Err(message),
                Ok(name) => match self.with_scope(given, at, scopes, name, SymbolKind::Class) {
                    Err(message) => Err(message),
                    Ok(next) => match is_test_case(given, at, stop) {
                        Err(message) => Err(message),
                        Ok(false) => Ok(next),
                        Ok(true) => Ok(
                            Step {
                                defined: Defined {
                                    test_cases: next.defined.test_cases.push(next.scope->0.id),
                                    ..next.defined
                                },
                                ..next
                            },
                        ),
                    },
                },
            },
        }
    }

    /// With a constant that a module or a class defines.
    pub open spec fn with_constant(
        self,
        given: Given,
        at: int,
        stop: int,
        scopes: Seq<ActiveScope>,
    ) -> Result<Defined, Seq<char>> {
        if scopes.len() > 0 && !scopes.last().is_class {
            Ok(self)
        } else {
            match given.field(at, stop, "left"@) {
                None => Ok(self),
                Some(left) => if !given.is(left, "identifier"@) {
                    Ok(self)
                } else {
                    match given.text(left) {
                        Err(message) => Err(message),
                        Ok(name) => if (!is_constant_name(name) && !is_final(given, at, stop))
                            || knows_constant(self.symbols, innermost(scopes), name) {
                            Ok(self)
                        } else {
                            self.with_symbol(given, at, scopes, name, SymbolKind::Constant)
                        },
                    }
                },
            }
        }
    }

    /// With what a node itself defines.
    pub open spec fn with_node(
        self,
        given: Given,
        at: int,
        stop: int,
        scopes: Seq<ActiveScope>,
    ) -> Result<Step, Seq<char>> {
        if given.is(at, "function_definition"@) {
            self.with_function(given, at, stop, scopes)
        } else if given.is(at, "class_definition"@) {
            self.with_class(given, at, stop, scopes)
        } else if given.is(at, "assignment"@) {
            match self.with_constant(given, at, stop, scopes) {
                Err(message) => Err(message),
                Ok(next) => Ok(next.flat()),
            }
        } else {
            Ok(self.flat())
        }
    }
}

/// The scopes with one that a node opens.
pub open spec fn opened(scopes: Seq<ActiveScope>, scope: Option<ActiveScope>) -> Seq<ActiveScope> {
    match scope {
        Some(scope) => scopes.push(scope),
        None => scopes,
    }
}

/// What is defined by a node and all below it.
pub open spec fn defined_by(
    given: Given,
    at: int,
    stop: int,
    scopes: Seq<ActiveScope>,
    defined: Defined,
) -> Result<Defined, Seq<char>>
    decreases stop - at, 0int,
{
    if at >= stop {
        Ok(defined)
    } else {
        match defined.with_node(given, at, stop, scopes) {
            Err(message) => Err(message),
            Ok(next) => defined_below(
                given,
                at + 1,
                stop,
                opened(scopes, next.scope),
                next.defined,
            ),
        }
    }
}

/// What is defined by the siblings from `at` on.
pub open spec fn defined_below(
    given: Given,
    at: int,
    stop: int,
    scopes: Seq<ActiveScope>,
    defined: Defined,
) -> Result<Defined, Seq<char>>
    decreases stop - at, 1int,
{
    if at >= stop {
        Ok(defined)
    } else {
        let next = given.end(at, stop);
        if !given.nodes[at].named {
            defined_below(given, next, stop, scopes, defined)
        } else {
            match defined_by(given, at, next, scopes, defined) {
                Err(message) => Err(message),
                Ok(seen) => defined_below(given, next, stop, scopes, seen),
            }
        }
    }
}

/// Whether a step came out as it should: with the records that it should leave, or
/// with the message that it should fail with.
pub open spec fn tells(
    outcome: Result<(), String>,
    expected: Result<Records, Seq<char>>,
    after: Records,
) -> bool {
    match outcome {
        Ok(()) => expected == Ok::<Records, Seq<char>>(after),
        Err(message) => expected == Err::<Records, Seq<char>>(message@),
    }
}

/// What a file imports, refers to and calls, and where it is entered.
#[verifier::ext_equal]
pub struct Records {
    pub imports: Seq<ImportShown>,
    pub references: Seq<ReferenceShown>,
    pub calls: Seq<CallShown>,
    pub entry_points: Seq<EntryShown>,
}

/// Whether a kind of symbol can be called.
pub open spec fn is_callable(kind: KindShown) -> bool {
    kind == KindShown::Known(SymbolKind::Function) || kind == KindShown::Known(SymbolKind::Method)
        || kind == KindShown::Known(SymbolKind::Class)
}

/// The last symbol with a name in a scope.
pub open spec fn last_symbol(
    symbols: Seq<SymbolShown>,
    name: Seq<char>,
    parent_id: Option<ParsedSymbolId>,
    callable_only: bool,
) -> Option<ParsedSymbolId>
    decreases symbols.len(),
{
    if symbols.len() == 0 {
        None
    } else {
        let last = symbols.last();
        if last.name == name && last.parent_id == parent_id && (!callable_only || is_callable(
            last.kind,
        )) {
            Some(last.local_id)
        } else {
            last_symbol(symbols.drop_last(), name, parent_id, callable_only)
        }
    }
}

/// The symbol that a name means in a scope. The scope of a class is not visible from a
/// function in it.
pub open spec fn resolved(
    symbols: Seq<SymbolShown>,
    name: Seq<char>,
    scopes: Seq<ActiveScope>,
    crossed_function: bool,
    callable_only: bool,
) -> Option<ParsedSymbolId>
    decreases scopes.len(),
{
    if scopes.len() == 0 {
        last_symbol(symbols, name, None, callable_only)
    } else {
        let scope = scopes.last();
        let found = last_symbol(symbols, name, Some(scope.id), callable_only);
        if (!scope.is_class || !crossed_function) && found is Some {
            found
        } else {
            resolved(
                symbols,
                name,
                scopes.drop_last(),
                crossed_function || !scope.is_class,
                callable_only,
            )
        }
    }
}

/// The target that a node names: a symbol of the file, where a plain name means one.
pub open spec fn target_of(
    given: Given,
    at: int,
    stop: int,
    symbols: Seq<SymbolShown>,
    scopes: Seq<ActiveScope>,
    callable_only: bool,
) -> Result<TargetShown, Seq<char>> {
    match reference_name(given, at, stop) {
        Err(message) => Err(message),
        Ok(name) => {
            let found = resolved(symbols, name, scopes, false, callable_only);
            if given.is(at, "identifier"@) && found is Some {
                Ok(TargetShown::Local(found->0))
            } else {
                Ok(TargetShown::Unresolved(name))
            }
        },
    }
}

/// The target of what is imported from a module.
pub open spec fn import_target(module: Seq<char>, item: Seq<char>) -> Seq<char> {
    if module.len() > 0 && module.last() == '.' {
        module + item
    } else {
        module + "."@ + item
    }
}

/// The name and the alias of an imported item.
pub open spec fn import_item(given: Given, at: int, stop: int) -> Result<
    (Seq<char>, Option<Seq<char>>),
    Seq<char>,
> {
    let name = given.field(at, stop, "name"@);
    if !given.is(at, "aliased_import"@) || name is None {
        match given.text(at) {
            Err(message) => Err(message),
            Ok(found) => Ok((found, None)),
        }
    } else {
        match given.field(at, stop, "alias"@) {
            None => match given.text(name->0) {
                Err(message) => Err(message),
                Ok(found) => Ok((found, None)),
            },
            Some(alias) => match given.text(alias) {
                Err(message) => Err(message),
                Ok(shown) => match given.text(name->0) {
                    Err(message) => Err(message),
                    Ok(found) => Ok((found, Some(shown))),
                },
            },
        }
    }
}

/// The conditions that tell that a file is run by itself.
pub open spec fn is_main_condition(compact: Seq<char>) -> bool {
    let own = without_parentheses(compact);
    own == "__name__==\"__main__\""@ || own == "__name__=='__main__'"@ || own
        == "\"__main__\"==__name__"@ || own == "'__main__'==__name__"@
}

/// A text without the parentheses around it.
pub open spec fn without_parentheses(s: Seq<char>) -> Seq<char>
    decreases s.len(),
{
    if s.len() >= 2 && s[0] == '(' && s.last() == ')' {
        without_parentheses(s.subrange(1, s.len() - 1))
    } else {
        s
    }
}

impl Records {
    /// With an import of the item at `at`; `module` is what it is imported from.
    pub open spec fn with_item(
        self,
        given: Given,
        at: int,
        stop: int,
        module: Option<Seq<char>>,
    ) -> Result<Records, Seq<char>> {
        match import_item(given, at, stop) {
            Err(message) => Err(message),
            Ok(item) => match range_of(given.nodes[at]) {
                Err(message) => Err(message),
                Ok(span) => Ok(
                    Records {
                        imports: self.imports.push(
                            ImportShown {
                                target: match module {
                                    Some(module) => import_target(module, item.0),
                                    None => item.0,
                                },
                                span,
                                alias: item.1,
                            },
                        ),
                        ..self
                    },
                ),
            },
        }
    }

    /// With the imports of all items from `at` on.
    pub open spec fn with_items(
        self,
        given: Given,
        at: int,
        stop: int,
        module: Option<Seq<char>>,
    ) -> Result<Records, Seq<char>>
        decreases stop - at,
    {
        if at >= stop {
            Ok(self)
        } else {
            let next = given.end(at, stop);
            if !syntax::has_field(given.nodes[at], "name"@) {
                self.with_items(given, next, stop, module)
            } else {
                match self.with_item(given, at, next, module) {
                    Err(message) => Err(message),
                    Ok(records) => records.with_items(given, next, stop, module),
                }
            }
        }
    }

    /// With the import of all that a module has, where a star stands from `at` on.
    pub open spec fn with_wildcard(
        self,
        given: Given,
        at: int,
        stop: int,
        module: Seq<char>,
    ) -> Result<Records, Seq<char>>
        decreases stop - at,
    {
        if at >= stop {
            Ok(self)
        } else if given.is(at, "*"@) || given.is(at, "wildcard_import"@) {
            match range_of(given.nodes[at]) {
                Err(message) => Err(message),
                Ok(span) => Ok(
                    Records {
                        imports: self.imports.push(
                            ImportShown { target: import_target(module, "*"@), span, alias: None },
                        ),
                        ..self
                    },
                ),
            }
        } else {
            self.with_wildcard(given, given.end(at, stop), stop, module)
        }
    }

    /// With what is imported from a module.
    pub open spec fn with_from_import(self, given: Given, at: int, stop: int) -> Result<
        Records,
        Seq<char>,
    > {
        match given.field(at, stop, "module_name"@) {
            None => Ok(self),
            Some(child) => match given.text(child) {
                Err(message) => Err(message),
                Ok(module) => if given.field(at, stop, "name"@) is Some {
                    self.with_items(given, at + 1, stop, Some(module))
                } else {
                    self.with_wildcard(given, at + 1, stop, module)
                },
            },
        }
    }

    /// With a call; without a function it is none.
    pub open spec fn with_call(
        self,
        given: Given,
        at: int,
        stop: int,
        symbols: Seq<SymbolShown>,
        scopes: Seq<ActiveScope>,
    ) -> Result<Records, Seq<char>> {
        match given.field(at, stop, "function"@) {
            None => Ok(self),
            Some(function) => match target_of(
                given,
                function,
                given.end(function, stop),
                symbols,
                scopes,
                true,
            ) {
                Err(message) => Err(message),
                Ok(target) => match range_of(given.nodes[at]) {
                    Err(message) => Err(message),
                    Ok(span) => Ok(
                        Records {
                            calls: self.calls.push(
                                CallShown {
                                    caller_id: innermost(scopes),
                                    target,
                                    span,
                                    confidence: None,
                                },
                            ),
                            ..self
                        },
                    ),
                },
            },
        }
    }

    /// With a reference.
    pub open spec fn with_reference(
        self,
        given: Given,
        at: int,
        stop: int,
        symbols: Seq<SymbolShown>,
        scopes: Seq<ActiveScope>,
        kind: ReferenceKind,
    ) -> Result<Records, Seq<char>> {
        match target_of(given, at, stop, symbols, scopes, false) {
            Err(message) => Err(message),
            Ok(target) => match range_of(given.nodes[at]) {
                Err(message) => Err(message),
                Ok(span) => Ok(
                    Records {
                        references: self.references.push(
                            ReferenceShown { source_id: innermost(scopes), target, kind, span },
                        ),
                        ..self
                    },
                ),
            },
        }
    }

    /// With references to the base classes from `at` on.
    pub open spec fn with_bases(
        self,
        given: Given,
        at: int,
        stop: int,
        symbols: Seq<SymbolShown>,
        scopes: Seq<ActiveScope>,
    ) -> Result<Records, Seq<char>>
        decreases stop - at,
    {
        if at >= stop {
            Ok(self)
        } else {
            let next = given.end(at, stop);
            if !given.nodes[at].named || given.is(at, "keyword_argument"@) {
                self.with_bases(given, next, stop, symbols, scopes)
            } else {
                let base = base_node(given, at, next);
                match self.with_reference(
                    given,
                    base.0,
                    base.1,
                    symbols,
                    scopes,
                    ReferenceKind::Inheritance,
                ) {
                    Err(message) => Err(message),
                    Ok(records) => records.with_bases(given, next, stop, symbols, scopes),
                }
            }
        }
    }

    /// With references to what a class inherits from.
    pub open spec fn with_inheritance(
        self,
        given: Given,
        at: int,
        stop: int,
        symbols: Seq<SymbolShown>,
        scopes: Seq<ActiveScope>,
    ) -> Result<Records, Seq<char>> {
        match given.field(at, stop, "superclasses"@) {
            None => Ok(self),
            Some(arguments) => self.with_bases(
                given,
                arguments + 1,
                given.end(arguments, stop),
                symbols,
                scopes,
            ),
        }
    }

    /// With references to the types that an annotation names. Strings are not read.
    pub open spec fn with_annotation(
        self,
        given: Given,
        at: int,
        stop: int,
        symbols: Seq<SymbolShown>,
        scopes: Seq<ActiveScope>,
    ) -> Result<Records, Seq<char>>
        decreases stop - at, 0int,
    {
        if at >= stop {
            Ok(self)
        } else if given.is(at, "identifier"@) || given.is(at, "none"@) || given.is(at, "attribute"@)
            || given.is(at, "member_type"@) {
            self.with_reference(given, at, stop, symbols, scopes, ReferenceKind::Type)
        } else if given.is(at, "string"@) || given.is(at, "concatenated_string"@) {
            Ok(self)
        } else {
            self.with_annotations(given, at + 1, stop, symbols, scopes)
        }
    }

    /// With references to the types that the annotations from `at` on name.
    pub open spec fn with_annotations(
        self,
        given: Given,
        at: int,
        stop: int,
        symbols: Seq<SymbolShown>,
        scopes: Seq<ActiveScope>,
    ) -> Result<Records, Seq<char>>
        decreases stop - at, 1int,
    {
        if at >= stop {
            Ok(self)
        } else {
            let next = given.end(at, stop);
            if !given.nodes[at].named {
                self.with_annotations(given, next, stop, symbols, scopes)
            } else {
                match self.with_annotation(given, at, next, symbols, scopes) {
                    Err(message) => Err(message),
                    Ok(records) => records.with_annotations(given, next, stop, symbols, scopes),
                }
            }
        }
    }

    /// With the entry point that the test of a main guard is.
    pub open spec fn with_main_guard(self, given: Given, at: int, stop: int) -> Result<
        Records,
        Seq<char>,
    > {
        match given.field(at, stop, "condition"@) {
            None => Ok(self),
            Some(condition) => match given.text(condition) {
                Err(message) => Err(message),
                Ok(found) => if !is_main_condition(wrap::without_blanks(found)) {
                    Ok(self)
                } else {
                    match range_of(given.nodes[at]) {
                        Err(message) => Err(message),
                        Ok(span) => Ok(
                            Records {
                                entry_points: self.entry_points.push(
                                    EntryShown {
                                        kind: EntryPointKind::Executable,
                                        label: "Python __main__ guard"@,
                                        symbol_id: None,
                                        span,
                                    },
                                ),
                                ..self
                            },
                        ),
                    }
                },
            },
        }
    }

    /// With what a node itself is. `scopes` are those inside it.
    pub open spec fn with_node(
        self,
        given: Given,
        at: int,
        stop: int,
        symbols: Seq<SymbolShown>,
        scopes: Seq<ActiveScope>,
    ) -> Result<Records, Seq<char>> {
        if given.is(at, "import_statement"@) {
            self.with_items(given, at + 1, stop, None)
        } else if given.is(at, "import_from_statement"@) {
            self.with_from_import(given, at, stop)
        } else if given.is(at, "future_import_statement"@) {
            self.with_items(given, at + 1, stop, Some("__future__"@))
        } else if given.is(at, "call"@) {
            self.with_call(given, at, stop, symbols, scopes)
        } else if given.is(at, "class_definition"@) {
            self.with_inheritance(given, at, stop, symbols, scopes)
        } else if given.is(at, "if_statement"@) && scopes.len() == 0 {
            self.with_main_guard(given, at, stop)
        } else {
            Ok(self)
        }
    }
}

/// The scope that a node opens.
pub open spec fn scope_at(defined: Defined, at: int) -> Option<ActiveScope> {
    if defined.scopes.contains_key(at as usize) {
        Some(defined.scopes[at as usize])
    } else {
        None
    }
}

/// What is recorded of a node and all below it.
pub open spec fn recorded(
    given: Given,
    at: int,
    stop: int,
    defined: Defined,
    scopes: Seq<ActiveScope>,
    records: Records,
) -> Result<Records, Seq<char>>
    decreases stop - at, 0int,
{
    if at >= stop {
        Ok(records)
    } else {
        let inside = opened(scopes, scope_at(defined, at));
        match records.with_node(given, at, stop, defined.symbols, inside) {
            Err(message) => Err(message),
            Ok(next) => recorded_below(given, at + 1, stop, defined, inside, next),
        }
    }
}

/// What is recorded of the siblings from `at` on.
pub open spec fn recorded_below(
    given: Given,
    at: int,
    stop: int,
    defined: Defined,
    scopes: Seq<ActiveScope>,
    records: Records,
) -> Result<Records, Seq<char>>
    decreases stop - at, 1int,
{
    if at >= stop {
        Ok(records)
    } else {
        let next = given.end(at, stop);
        let node = given.nodes[at];
        if !node.named {
            recorded_below(given, next, stop, defined, scopes, records)
        } else {
            let annotated = if syntax::has_field(node, "type"@) || syntax::has_field(
                node,
                "return_type"@,
            ) {
                records.with_annotation(given, at, next, defined.symbols, scopes)
            } else {
                Ok(records)
            };
            match annotated {
                Err(message) => Err(message),
                Ok(typed) => match recorded(given, at, next, defined, scopes, typed) {
                    Err(message) => Err(message),
                    Ok(seen) => recorded_below(given, next, stop, defined, scopes, seen),
                },
            }
        }
    }
}

/// Whether a symbol is a class of tests: a class of the module whose name says so or
/// that is a test case.
pub open spec fn is_test_class(defined: Defined, symbol: SymbolShown) -> bool {
    symbol.kind == KindShown::Known(SymbolKind::Class) && symbol.parent_id is None && (
    text::starts_with(symbol.name, "Test"@) || defined.test_cases.contains(symbol.local_id))
}

/// Whether a class of tests has an ID.
pub open spec fn is_test_class_id(defined: Defined, id: ParsedSymbolId) -> bool {
    exists|i: int|
        #![trigger defined.symbols[i]]
        0 <= i < defined.symbols.len() && is_test_class(defined, defined.symbols[i])
            && defined.symbols[i].local_id == id
}

/// Whether a symbol is a test.
pub open spec fn is_test(defined: Defined, symbol: SymbolShown) -> bool {
    match symbol.kind {
        KindShown::Known(SymbolKind::Class) => is_test_class_id(defined, symbol.local_id),
        KindShown::Known(SymbolKind::Function) => symbol.parent_id is None && text::starts_with(
            symbol.name,
            "test_"@,
        ),
        KindShown::Known(SymbolKind::Method) => text::starts_with(symbol.name, "test_"@)
            && symbol.parent_id is Some && is_test_class_id(defined, symbol.parent_id->0),
        _ => false,
    }
}

/// The entry points with the tests among the first symbols.
pub open spec fn with_tests(entries: Seq<EntryShown>, defined: Defined, count: nat) -> Seq<
    EntryShown,
>
    decreases count,
{
    if count == 0 {
        entries
    } else {
        let before = with_tests(entries, defined, (count - 1) as nat);
        let symbol = defined.symbols[count - 1];
        if is_test(defined, symbol) {
            before.push(
                EntryShown {
                    kind: EntryPointKind::Test,
                    label: symbol.qualified_name,
                    symbol_id: Some(symbol.local_id),
                    span: symbol.span,
                },
            )
        } else {
            before
        }
    }
}

/// Whether a range comes before another: it starts earlier, or ends earlier.
pub open spec fn range_before(left: parser::Range, right: parser::Range) -> bool {
    source::position_before(left.0, right.0) || (left.0 == right.0 && source::position_before(
        left.1,
        right.1,
    ))
}

pub open spec fn import_order() -> spec_fn(ImportShown, ImportShown) -> bool {
    |left: ImportShown, right: ImportShown| range_before(left.span, right.span)
}

pub open spec fn reference_order() -> spec_fn(ReferenceShown, ReferenceShown) -> bool {
    |left: ReferenceShown, right: ReferenceShown| range_before(left.span, right.span)
}

pub open spec fn call_order() -> spec_fn(CallShown, CallShown) -> bool {
    |left: CallShown, right: CallShown| range_before(left.span, right.span)
}

/// Entry points with the same range are ordered by their labels.
pub open spec fn entry_order() -> spec_fn(EntryShown, EntryShown) -> bool {
    |left: EntryShown, right: EntryShown|
        range_before(left.span, right.span) || (left.span == right.span && text::before(
            left.label,
            right.label,
        ))
}

/// The path of a Python file without its suffix.
pub open spec fn path_stem(path: Seq<char>) -> Option<Seq<char>> {
    match text::last_occurrence(path, seq!['.'], path.len() as int) {
        None => None,
        Some(at) => {
            let extension = lowered(path.skip(at + 1));
            if extension == seq!['p', 'y'] || extension == seq!['p', 'y', 'i'] {
                Some(path.take(at))
            } else {
                None
            }
        },
    }
}

/// A text whose ASCII letters are lower case.
pub open spec fn lowered(s: Seq<char>) -> Seq<char> {
    Seq::new(s.len(), |i: int| text::ascii_lower(s[i]))
}

/// Names with dots between them.
pub open spec fn dotted_names(names: Seq<Seq<char>>) -> Seq<char>
    decreases names.len(),
{
    if names.len() == 0 {
        Seq::empty()
    } else if names.len() == 1 {
        names[0]
    } else {
        dotted_names(names.drop_last()) + "."@ + names.last()
    }
}

/// The name and the full name of the module that a file is. A package is named by its
/// directory.
pub open spec fn module_names(path: Seq<char>) -> Result<(Seq<char>, Seq<char>), Seq<char>> {
    match path_stem(path) {
        None => Err("expected a .py or .pyi repository path"@),
        Some(stem) => {
            let components = text::split_on(stem, '/');
            if components.last().len() == 0 {
                Err("cannot derive a Python module from "@ + path)
            } else {
                let names = if components.len() > 1 && components.last() == "__init__"@ {
                    components.drop_last()
                } else {
                    components
                };
                Ok((names.last(), dotted_names(names)))
            }
        },
    }
}

/// What a Python file holds, given the nodes of its syntax tree.
pub open spec fn extracted(path: RepositoryPath, source: Seq<char>, nodes: Seq<NodeShown>) -> Result<
    FileShown,
    Seq<char>,
> {
    match module_names(path@) {
        Err(message) => Err(message),
        Ok(names) => match range_of(nodes[0]) {
            Err(message) => Err(message),
            Ok(span) => {
                let given = Given { nodes, source, module: names.1 };
                let nothing = Defined {
                    symbols: Seq::empty(),
                    scopes: Map::empty(),
                    test_cases: Seq::empty(),
                };
                let stop = nodes.len() as int;
                match defined_by(given, 0, stop, Seq::empty(), nothing) {
                    Err(message) => Err(message),
                    Ok(defined) => {
                        let start = Records {
                            imports: Seq::empty(),
                            references: Seq::empty(),
                            calls: Seq::empty(),
                            entry_points: Seq::empty(),
                        };
                        match recorded(given, 0, stop, defined, Seq::empty(), start) {
                            Err(message) => Err(message),
                            Ok(records) => Ok(
                                FileShown {
                                    path,
                                    language: Language::Python,
                                    module: Some(
                                        ModuleShown {
                                            name: names.0,
                                            qualified_name: names.1,
                                            span: Some(span),
                                        },
                                    ),
                                    symbols: defined.symbols,
                                    imports: sort::stable_sorted_by(
                                        records.imports,
                                        import_order(),
                                    ),
                                    references: sort::stable_sorted_by(
                                        records.references,
                                        reference_order(),
                                    ),
                                    calls: sort::stable_sorted_by(records.calls, call_order()),
                                    entry_points: sort::stable_sorted_by(
                                        with_tests(
                                            records.entry_points,
                                            defined,
                                            defined.symbols.len(),
                                        ),
                                        entry_order(),
                                    ),
                                },
                            ),
                        }
                    },
                }
            },
        },
    }
}

impl Ordered for ParsedImport {
    open spec fn precedes(self, other: ParsedImport) -> bool {
        range_before(self.span@, other.span@)
    }

    proof fn order_laws(a: ParsedImport, b: ParsedImport, c: ParsedImport) {
    }

    fn comes_before(&self, other: &ParsedImport) -> (before: bool) {
        starts_before(self.span, other.span)
    }
}

impl Ordered for ParsedReference {
    open spec fn precedes(self, other: ParsedReference) -> bool {
        range_before(self.span@, other.span@)
    }

    proof fn order_laws(a: ParsedReference, b: ParsedReference, c: ParsedReference) {
    }

    fn comes_before(&self, other: &ParsedReference) -> (before: bool) {
        starts_before(self.span, other.span)
    }
}

impl Ordered for ParsedCall {
    open spec fn precedes(self, other: ParsedCall) -> bool {
        range_before(self.span@, other.span@)
    }

    proof fn order_laws(a: ParsedCall, b: ParsedCall, c: ParsedCall) {
    }

    fn comes_before(&self, other: &ParsedCall) -> (before: bool) {
        starts_before(self.span, other.span)
    }
}

impl Ordered for ParsedEntryPoint {
    open spec fn precedes(self, other: ParsedEntryPoint) -> bool {
        range_before(self.span@, other.span@) || (self.span@ == other.span@ && text::before(
            self.label@,
            other.label@,
        ))
    }

    proof fn order_laws(a: ParsedEntryPoint, b: ParsedEntryPoint, c: ParsedEntryPoint) {
        text::law_text_order(a.label@, b.label@, c.label@);
        text::law_text_order(b.label@, a.label@, c.label@);
        text::law_text_order(a.label@, c.label@, b.label@);
    }

    fn comes_before(&self, other: &ParsedEntryPoint) -> (before: bool) {
        starts_before(self.span, other.span) || (same_range(self.span, other.span)
            && text::text_before(self.label.as_str(), other.label.as_str()))
    }
}

fn same_range(left: SourceSpan, right: SourceSpan) -> (same: bool)
    ensures
        same == (left@ == right@),
{
    left.start().line() == right.start().line() && left.start().column() == right.start().column()
        && left.end().line() == right.end().line() && left.end().column() == right.end().column()
}

/// Tests whether a range comes before another.
fn starts_before(left: SourceSpan, right: SourceSpan) -> (before: bool)
    ensures
        before == range_before(left@, right@),
{
    let (a, b) = (left.start(), right.start());
    if a.line() != b.line() {
        return a.line() < b.line();
    }
    if a.column() != b.column() {
        return a.column() < b.column();
    }
    let (c, d) = (left.end(), right.end());
    if c.line() != d.line() {
        return c.line() < d.line();
    }
    c.column() < d.column()
}

/// Collects what a file defines, imports, calls and refers to.
struct Extractor<'source> {
    source: &'source str,
    module: &'source str,
    symbols: Vec<ParsedSymbol>,
    scopes: BTreeMap<usize, ActiveScope>,
    test_cases: Vec<ParsedSymbolId>,
    imports: Vec<ParsedImport>,
    references: Vec<ParsedReference>,
    calls: Vec<ParsedCall>,
    entry_points: Vec<ParsedEntryPoint>,
}

/// Whether all scopes are those of symbols.
spec fn scopes_known(scopes: Seq<ActiveScope>, count: nat) -> bool {
    forall|i: int| 0 <= i < scopes.len() ==> (#[trigger] scopes[i]).id.0 < count
}

fn innermost_scope(scopes: &Vec<ActiveScope>) -> (id: Option<ParsedSymbolId>)
    ensures
        id == innermost(scopes@),
{
    if scopes.len() == 0 {
        None
    } else {
        Some(scopes[scopes.len() - 1].id)
    }
}

/// Tests whether a name is that of a constant.
fn names_constant(name: &str) -> (constant: bool)
    ensures
        constant == is_constant_name(name@),
{
    let chars = text::chars_of(name);
    let mut upper = false;
    let mut index: usize = 0;
    while index < chars.len()
        invariant
            index <= chars@.len(),
            chars@ == name@,
            upper == exists|i: int| 0 <= i < index && text::uppercase(#[trigger] name@[i]),
            forall|i: int|
                0 <= i < index ==> #[trigger] name@[i] == '_' || text::uppercase(name@[i])
                    || text::numeric(name@[i]),
        decreases chars@.len() - index,
    {
        let character = chars[index];
        assert(name@[index as int] == character);
        let is_upper = text::is_uppercase(character);
        if !(character == '_' || is_upper || text::is_numeric(character)) {
            return false;
        }
        if is_upper {
            upper = true;
        }
        index = index + 1;
    }
    upper
}

/// Tests whether a text starts with another one.
fn has_prefix(value: &str, prefix: &str) -> (found: bool)
    ensures
        found == text::starts_with(value@, prefix@),
{
    let chars = text::chars_of(value);
    let wanted = text::chars_of(prefix);
    text::chars_start_with(chars.as_slice(), wanted.as_slice())
}

/// Tests whether a text ends with another one.
fn has_suffix(value: &str, suffix: &str) -> (found: bool)
    ensures
        found == text::ends_with(value@, suffix@),
{
    let chars = text::chars_of(value);
    let wanted = text::chars_of(suffix);
    text::chars_end_with(chars.as_slice(), wanted.as_slice())
}

/// Tests whether a condition tells that a file is run by itself.
fn guards_main(compact: &str) -> (guards: bool)
    ensures
        guards == is_main_condition(compact@),
{
    let chars = text::chars_of(compact);
    let mut start: usize = 0;
    let mut stop: usize = chars.len();
    assert(chars@.subrange(0, stop as int) =~= chars@);
    while stop - start >= 2 && chars[start] == '(' && chars[stop - 1] == ')'
        invariant
            start <= stop <= chars@.len(),
            without_parentheses(chars@.subrange(start as int, stop as int)) == without_parentheses(
                chars@,
            ),
        decreases stop - start,
    {
        let ghost outer = chars@.subrange(start as int, stop as int);
        assert(outer.subrange(1, outer.len() - 1) =~= chars@.subrange(start + 1, stop - 1));
        start = start + 1;
        stop = stop - 1;
    }
    let own = text::string_of(slice_subrange(chars.as_slice(), start, stop));
    text::same_text(own.as_str(), "__name__==\"__main__\"") || text::same_text(
        own.as_str(),
        "__name__=='__main__'",
    ) || text::same_text(own.as_str(), "\"__main__\"==__name__") || text::same_text(
        own.as_str(),
        "'__main__'==__name__",
    )
}

/// The target of what is imported from a module.
fn join_import_target(module: &str, item: &str) -> (target: String)
    ensures
        target@ == import_target(module@, item@),
{
    let chars = text::chars_of(module);
    let count = chars.len();
    let mut target = module.to_owned();
    if !(count > 0 && chars[count - 1] == '.') {
        target.push_str(".");
    }
    target.push_str(item);
    target
}

/// Tests whether a kind of symbol can be called.
fn can_be_called(kind: &SymbolKind) -> (callable: bool)
    ensures
        callable == is_callable(parser::kind_shown(*kind)),
{
    match kind {
        SymbolKind::Function | SymbolKind::Method | SymbolKind::Class => true,
        _ => false,
    }
}

impl<'source> Extractor<'source> {
    spec fn defined(self) -> Defined {
        Defined {
            symbols: parser::symbols_shown(self.symbols@),
            scopes: self.scopes@,
            test_cases: self.test_cases@,
        }
    }

    spec fn records(self) -> Records {
        Records {
            imports: parser::imports_shown(self.imports@),
            references: parser::references_shown(self.references@),
            calls: parser::calls_shown(self.calls@),
            entry_points: parser::entries_shown(self.entry_points@),
        }
    }

    spec fn given(self, nodes: Seq<SyntaxNode>) -> Given {
        Given { nodes: syntax::nodes_shown(nodes), source: self.source@, module: self.module@ }
    }

    fn text(&self, nodes: &Vec<SyntaxNode>, at: usize) -> (found: Result<String, String>)
        requires
            at < nodes@.len(),
        ensures
            match found {
                Ok(found) => self.given(nodes@).text(at as int) == Ok::<Seq<char>, Seq<char>>(
                    found@,
                ),
                Err(message) => self.given(nodes@).text(at as int) == Err::<Seq<char>, Seq<char>>(
                    message@,
                ),
            },
    {
        assert(syntax::nodes_shown(nodes@)[at as int] == nodes@[at as int]@);
        read_text(&nodes[at], self.source)
    }

    fn span(&self, nodes: &Vec<SyntaxNode>, at: usize) -> (span: Result<SourceSpan, String>)
        requires
            at < nodes@.len(),
        ensures
            match span {
                Ok(span) => range_of(self.given(nodes@).nodes[at as int]) == Ok::<
                    parser::Range,
                    Seq<char>,
                >(span@),
                Err(message) => range_of(self.given(nodes@).nodes[at as int]) == Err::<
                    parser::Range,
                    Seq<char>,
                >(message@),
            },
    {
        assert(syntax::nodes_shown(nodes@)[at as int] == nodes@[at as int]@);
        read_span(&nodes[at])
    }

    fn is(&self, nodes: &Vec<SyntaxNode>, at: usize, kind: &str) -> (found: bool)
        requires
            at < nodes@.len(),
        ensures
            found == self.given(nodes@).is(at as int, kind@),
    {
        assert(syntax::nodes_shown(nodes@)[at as int] == nodes@[at as int]@);
        syntax::is_kind(&nodes[at], kind)
    }

    fn named(&self, nodes: &Vec<SyntaxNode>, at: usize) -> (named: bool)
        requires
            at < nodes@.len(),
        ensures
            named == self.given(nodes@).nodes[at as int].named,
    {
        assert(syntax::nodes_shown(nodes@)[at as int] == nodes@[at as int]@);
        nodes[at].named
    }

    /// The parts of an attribute with dots between them, if all of them are names.
    fn dotted_attribute(&self, nodes: &Vec<SyntaxNode>, at: usize, stop: usize) -> (found: Result<
        Option<String>,
        String,
    >)
        requires
            at < stop <= nodes@.len(),
        ensures
            match found {
                Ok(Some(name)) => dotted(self.given(nodes@), at as int, stop as int) == Ok::<
                    Option<Seq<char>>,
                    Seq<char>,
                >(Some(name@)),
                Ok(None) => dotted(self.given(nodes@), at as int, stop as int) == Ok::<
                    Option<Seq<char>>,
                    Seq<char>,
                >(None),
                Err(message) => dotted(self.given(nodes@), at as int, stop as int) == Err::<
                    Option<Seq<char>>,
                    Seq<char>,
                >(message@),
            },
        decreases stop - at,
    {
        if self.is(nodes, at, "identifier") {
            return match self.text(nodes, at) {
                Ok(name) => Ok(Some(name)),
                Err(message) => Err(message),
            };
        }
        if !self.is(nodes, at, "attribute") {
            return Ok(None);
        }
        let object = match syntax::find_field(nodes, at, stop, "object") {
            Some(child) => child,
            None => {
                return Ok(None);
            },
        };
        let attribute = match syntax::find_field(nodes, at, stop, "attribute") {
            Some(child) => child,
            None => {
                return Ok(None);
            },
        };
        let end = syntax::node_end(nodes, object, stop);
        match self.dotted_attribute(nodes, object, end) {
            Err(message) => Err(message),
            Ok(None) => Ok(None),
            Ok(Some(prefix)) => match self.text(nodes, attribute) {
                Err(message) => Err(message),
                Ok(name) => {
                    let mut whole = prefix;
                    whole.push_str(".");
                    whole.push_str(name.as_str());
                    Ok(Some(whole))
                },
            },
        }
    }

    /// The name that a node refers to.
    fn name_of(&self, nodes: &Vec<SyntaxNode>, at: usize, stop: usize) -> (found: Result<
        String,
        String,
    >)
        requires
            at < stop <= nodes@.len(),
        ensures
            match found {
                Ok(name) => reference_name(self.given(nodes@), at as int, stop as int) == Ok::<
                    Seq<char>,
                    Seq<char>,
                >(name@),
                Err(message) => reference_name(self.given(nodes@), at as int, stop as int) == Err::<
                    Seq<char>,
                    Seq<char>,
                >(message@),
            },
    {
        if self.is(nodes, at, "attribute") {
            match self.dotted_attribute(nodes, at, stop) {
                Err(message) => {
                    return Err(message);
                },
                Ok(Some(name)) => {
                    return Ok(name);
                },
                Ok(None) => {},
            }
        }
        match self.text(nodes, at) {
            Err(message) => Err(message),
            Ok(found) => Ok(text::trimmed_text(found.as_str())),
        }
    }

    /// The node that a base class is named by.
    fn inheritance_node(&self, nodes: &Vec<SyntaxNode>, at: usize, stop: usize) -> (base: (
        usize,
        usize,
    ))
        requires
            at < stop <= nodes@.len(),
        ensures
            base_node(self.given(nodes@), at as int, stop as int) == (base.0 as int, base.1 as int),
            base.0 < base.1 <= nodes@.len(),
    {
        let inner = if self.is(nodes, at, "subscript") {
            syntax::find_field(nodes, at, stop, "value")
        } else if self.is(nodes, at, "parenthesized_expression") {
            syntax::first_named_child(nodes, at, stop)
        } else {
            None
        };
        match inner {
            Some(child) => (child, syntax::node_end(nodes, child, stop)),
            None => (at, stop),
        }
    }

    /// Tests whether a class has a test case among its base classes.
    fn has_test_case_base(&self, nodes: &Vec<SyntaxNode>, at: usize, stop: usize) -> (found: Result<
        bool,
        String,
    >)
        requires
            at < stop <= nodes@.len(),
        ensures
            match found {
                Ok(found) => is_test_case(self.given(nodes@), at as int, stop as int) == Ok::<
                    bool,
                    Seq<char>,
                >(found),
                Err(message) => is_test_case(self.given(nodes@), at as int, stop as int) == Err::<
                    bool,
                    Seq<char>,
                >(message@),
            },
    {
        let arguments = match syntax::find_field(nodes, at, stop, "superclasses") {
            Some(child) => child,
            None => {
                return Ok(false);
            },
        };
        let end = syntax::node_end(nodes, arguments, stop);
        let ghost given = self.given(nodes@);
        let ghost whole = has_test_base(given, arguments + 1, end as int);
        let mut base: usize = arguments + 1;
        while base < end
            invariant
                arguments < base <= end <= nodes@.len(),
                given == self.given(nodes@),
                whole == has_test_base(given, base as int, end as int),
                whole == is_test_case(given, at as int, stop as int),
            decreases end - base,
        {
            let next = syntax::node_end(nodes, base, end);
            if self.named(nodes, base) && !self.is(nodes, base, "keyword_argument") {
                let reference = self.inheritance_node(nodes, base, next);
                match self.name_of(nodes, reference.0, reference.1) {
                    Err(message) => {
                        return Err(message);
                    },
                    Ok(name) => {
                        if text::same_text(name.as_str(), "TestCase") || has_suffix(
                            name.as_str(),
                            ".TestCase",
                        ) {
                            return Ok(true);
                        }
                    },
                }
            }
            base = next;
        }
        Ok(false)
    }

    /// The full name of what is defined in a scope.
    fn qualify(&self, name: &str, scopes: &Vec<ActiveScope>, nodes: &Vec<SyntaxNode>) -> (full:
        String)
        requires
            scopes_known(scopes@, self.symbols@.len()),
        ensures
            full@ == self.defined().qualified(self.given(nodes@), scopes@, name@),
    {
        let mut full = if scopes.len() == 0 {
            self.module.to_owned()
        } else {
            let last = scopes[scopes.len() - 1];
            let index = last.id.0 as usize;
            assert(scopes@[scopes@.len() - 1].id.0 < self.symbols@.len());
            assert(self.defined().symbols[index as int] == self.symbols@[index as int]@);
            self.symbols[index].qualified_name.clone()
        };
        full.push_str(".");
        full.push_str(name);
        full
    }

    /// Adds a symbol.
    fn add_symbol(
        &mut self,
        nodes: &Vec<SyntaxNode>,
        at: usize,
        scopes: &Vec<ActiveScope>,
        name: String,
        kind: SymbolKind,
    ) -> (added: Result<ParsedSymbolId, String>)
        requires
            at < nodes@.len(),
            scopes_known(scopes@, old(self).symbols@.len()),
            !(kind is Other),
        ensures
            final(self).given(nodes@) == old(self).given(nodes@),
            final(self).records() == old(self).records(),
            match added {
                Ok(id) => old(self).defined().with_symbol(
                    old(self).given(nodes@),
                    at as int,
                    scopes@,
                    name@,
                    kind,
                ) == Ok::<Defined, Seq<char>>(final(self).defined()) && id == ParsedSymbolId(
                    old(self).defined().symbols.len() as u32,
                ) && final(self).symbols@.len() == old(self).symbols@.len() + 1 && id.0
                    < final(self).symbols@.len(),
                Err(message) => old(self).defined().with_symbol(
                    old(self).given(nodes@),
                    at as int,
                    scopes@,
                    name@,
                    kind,
                ) == Err::<Defined, Seq<char>>(message@),
            },
    {
        if self.symbols.len() > u32::MAX as usize {
            return Err("file contains more symbols than local IDs can represent".to_owned());
        }
        let local_id = ParsedSymbolId(self.symbols.len() as u32);
        let qualified_name = self.qualify(name.as_str(), scopes, nodes);
        let span = match self.span(nodes, at) {
            Ok(span) => span,
            Err(message) => {
                return Err(message);
            },
        };
        self.symbols.push(
            ParsedSymbol {
                local_id,
                name,
                qualified_name,
                kind,
                span,
                parent_id: innermost_scope(scopes),
            },
        );
        assert(self.defined().symbols =~= old(self).defined().symbols.push(self.symbols@.last()@));
        Ok(local_id)
    }

    /// Adds a function or a class, whose node opens a scope.
    fn add_scoped_symbol(
        &mut self,
        nodes: &Vec<SyntaxNode>,
        at: usize,
        scopes: &Vec<ActiveScope>,
        name: String,
        kind: SymbolKind,
    ) -> (added: Result<ActiveScope, String>)
        requires
            at < nodes@.len(),
            scopes_known(scopes@, old(self).symbols@.len()),
            !(kind is Other),
        ensures
            final(self).given(nodes@) == old(self).given(nodes@),
            final(self).records() == old(self).records(),
            match added {
                Ok(scope) => old(self).defined().with_scope(
                    old(self).given(nodes@),
                    at as int,
                    scopes@,
                    name@,
                    kind,
                ) == Ok::<Step, Seq<char>>(
                    Step { defined: final(self).defined(), scope: Some(scope) },
                ) && final(self).symbols@.len() >= old(self).symbols@.len() && scope.id.0
                    < final(self).symbols@.len(),
                Err(message) => old(self).defined().with_scope(
                    old(self).given(nodes@),
                    at as int,
                    scopes@,
                    name@,
                    kind,
                ) == Err::<Step, Seq<char>>(message@),
            },
    {
        let is_class = match kind {
            SymbolKind::Class => true,
            _ => false,
        };
        match self.add_symbol(nodes, at, scopes, name, kind) {
            Err(message) => Err(message),
            Ok(id) => {
                let scope = ActiveScope { id, is_class };
                self.scopes.insert(at, scope);
                Ok(scope)
            },
        }
    }

    /// Adds a function.
    fn add_function(
        &mut self,
        nodes: &Vec<SyntaxNode>,
        at: usize,
        stop: usize,
        scopes: &Vec<ActiveScope>,
    ) -> (added: Result<Option<ActiveScope>, String>)
        requires
            at < stop <= nodes@.len(),
            scopes_known(scopes@, old(self).symbols@.len()),
        ensures
            final(self).given(nodes@) == old(self).given(nodes@),
            final(self).records() == old(self).records(),
            match added {
                Ok(scope) => old(self).defined().with_function(
                    old(self).given(nodes@),
                    at as int,
                    stop as int,
                    scopes@,
                ) == Ok::<Step, Seq<char>>(Step { defined: final(self).defined(), scope })
                    && final(self).symbols@.len() >= old(self).symbols@.len() && (
                scope matches Some(scope) ==> scope.id.0 < final(self).symbols@.len()),
                Err(message) => old(self).defined().with_function(
                    old(self).given(nodes@),
                    at as int,
                    stop as int,
                    scopes@,
                ) == Err::<Step, Seq<char>>(message@),
            },
    {
        let child = match syntax::find_field(nodes, at, stop, "name") {
            Some(child) => child,
            None => {
                return Ok(None);
            },
        };
        let name = match self.text(nodes, child) {
            Ok(name) => name,
            Err(message) => {
                return Err(message);
            },
        };
        let in_class = scopes.len() > 0 && scopes[scopes.len() - 1].is_class;
        let kind = if in_class {
            SymbolKind::Method
        } else {
            SymbolKind::Function
        };
        match self.add_scoped_symbol(nodes, at, scopes, name, kind) {
            Ok(scope) => Ok(Some(scope)),
            Err(message) => Err(message),
        }
    }

    /// Adds a class.
    fn add_class(
        &mut self,
        nodes: &Vec<SyntaxNode>,
        at: usize,
        stop: usize,
        scopes: &Vec<ActiveScope>,
    ) -> (added: Result<Option<ActiveScope>, String>)
        requires
            at < stop <= nodes@.len(),
            scopes_known(scopes@, old(self).symbols@.len()),
        ensures
            final(self).given(nodes@) == old(self).given(nodes@),
            final(self).records() == old(self).records(),
            match added {
                Ok(scope) => old(self).defined().with_class(
                    old(self).given(nodes@),
                    at as int,
                    stop as int,
                    scopes@,
                ) == Ok::<Step, Seq<char>>(Step { defined: final(self).defined(), scope })
                    && final(self).symbols@.len() >= old(self).symbols@.len() && (
                scope matches Some(scope) ==> scope.id.0 < final(self).symbols@.len()),
                Err(message) => old(self).defined().with_class(
                    old(self).given(nodes@),
                    at as int,
                    stop as int,
                    scopes@,
                ) == Err::<Step, Seq<char>>(message@),
            },
    {
        let child = match syntax::find_field(nodes, at, stop, "name") {
            Some(child) => child,
            None => {
                return Ok(None);
            },
        };
        let name = match self.text(nodes, child) {
            Ok(name) => name,
            Err(message) => {
                return Err(message);
            },
        };
        let scope = match self.add_scoped_symbol(nodes, at, scopes, name, SymbolKind::Class) {
            Ok(scope) => scope,
            Err(message) => {
                return Err(message);
            },
        };
        match self.has_test_case_base(nodes, at, stop) {
            Err(message) => Err(message),
            Ok(test_case) => {
                if test_case {
                    self.test_cases.push(scope.id);
                }
                Ok(Some(scope))
            },
        }
    }

    /// Tests whether an assignment has an annotation that says that its name is final.
    fn is_final_annotation(&self, nodes: &Vec<SyntaxNode>, at: usize, stop: usize) -> (found: bool)
        requires
            at < stop <= nodes@.len(),
        ensures
            found == is_final(self.given(nodes@), at as int, stop as int),
    {
        let annotation = match syntax::find_field(nodes, at, stop, "type") {
            Some(child) => child,
            None => {
                return false;
            },
        };
        match self.text(nodes, annotation) {
            Err(_) => false,
            Ok(found) => {
                let compact = wrap::compact_text(found.as_str());
                text::same_text(compact.as_str(), "Final") || has_prefix(compact.as_str(), "Final[")
                    || has_suffix(compact.as_str(), ".Final") || text::contains_text(
                    compact.as_str(),
                    ".Final[",
                )
            },
        }
    }

    /// Tests whether a constant with this name is known in a scope.
    fn has_constant(&self, parent_id: Option<ParsedSymbolId>, name: &str) -> (known: bool)
        ensures
            known == knows_constant(self.defined().symbols, parent_id, name@),
    {
        let mut index: usize = 0;
        while index < self.symbols.len()
            invariant
                index <= self.symbols@.len(),
                forall|i: int|
                    0 <= i < index ==> !((#[trigger] self.defined().symbols[i]).kind
                        == KindShown::Known(SymbolKind::Constant)
                        && self.defined().symbols[i].parent_id == parent_id
                        && self.defined().symbols[i].name == name@),
            decreases self.symbols@.len() - index,
        {
            let symbol = &self.symbols[index];
            assert(self.defined().symbols[index as int] == symbol@);
            let constant = match symbol.kind {
                SymbolKind::Constant => true,
                _ => false,
            };
            if constant && symbol.parent_id == parent_id && text::same_text(
                symbol.name.as_str(),
                name,
            ) {
                return true;
            }
            index = index + 1;
        }
        false
    }

    /// Adds a constant that a module or a class defines.
    fn add_constant(
        &mut self,
        nodes: &Vec<SyntaxNode>,
        at: usize,
        stop: usize,
        scopes: &Vec<ActiveScope>,
    ) -> (added: Result<(), String>)
        requires
            at < stop <= nodes@.len(),
            scopes_known(scopes@, old(self).symbols@.len()),
        ensures
            final(self).given(nodes@) == old(self).given(nodes@),
            final(self).records() == old(self).records(),
            match added {
                Ok(()) => old(self).defined().with_constant(
                    old(self).given(nodes@),
                    at as int,
                    stop as int,
                    scopes@,
                ) == Ok::<Defined, Seq<char>>(final(self).defined()) && final(self).symbols@.len()
                    >= old(self).symbols@.len(),
                Err(message) => old(self).defined().with_constant(
                    old(self).given(nodes@),
                    at as int,
                    stop as int,
                    scopes@,
                ) == Err::<Defined, Seq<char>>(message@),
            },
    {
        if scopes.len() > 0 && !scopes[scopes.len() - 1].is_class {
            return Ok(());
        }
        let left = match syntax::find_field(nodes, at, stop, "left") {
            Some(child) => child,
            None => {
                return Ok(());
            },
        };
        if !self.is(nodes, left, "identifier") {
            return Ok(());
        }
        let name = match self.text(nodes, left) {
            Ok(name) => name,
            Err(message) => {
                return Err(message);
            },
        };
        let explicit_final = self.is_final_annotation(nodes, at, stop);
        if !names_constant(name.as_str()) && !explicit_final {
            return Ok(());
        }
        if self.has_constant(innermost_scope(scopes), name.as_str()) {
            return Ok(());
        }
        match self.add_symbol(nodes, at, scopes, name, SymbolKind::Constant) {
            Ok(_) => Ok(()),
            Err(message) => Err(message),
        }
    }

    /// Adds what a node itself defines, and finds the scope that it opens.
    fn define(
        &mut self,
        nodes: &Vec<SyntaxNode>,
        at: usize,
        stop: usize,
        scopes: &Vec<ActiveScope>,
    ) -> (added: Result<Option<ActiveScope>, String>)
        requires
            at < stop <= nodes@.len(),
            scopes_known(scopes@, old(self).symbols@.len()),
        ensures
            final(self).given(nodes@) == old(self).given(nodes@),
            final(self).records() == old(self).records(),
            match added {
                Ok(scope) => old(self).defined().with_node(
                    old(self).given(nodes@),
                    at as int,
                    stop as int,
                    scopes@,
                ) == Ok::<Step, Seq<char>>(Step { defined: final(self).defined(), scope })
                    && final(self).symbols@.len() >= old(self).symbols@.len() && (
                scope matches Some(scope) ==> scope.id.0 < final(self).symbols@.len()),
                Err(message) => old(self).defined().with_node(
                    old(self).given(nodes@),
                    at as int,
                    stop as int,
                    scopes@,
                ) == Err::<Step, Seq<char>>(message@),
            },
    {
        if self.is(nodes, at, "function_definition") {
            self.add_function(nodes, at, stop, scopes)
        } else if self.is(nodes, at, "class_definition") {
            self.add_class(nodes, at, stop, scopes)
        } else if self.is(nodes, at, "assignment") {
            match self.add_constant(nodes, at, stop, scopes) {
                Ok(()) => Ok(None),
                Err(message) => Err(message),
            }
        } else {
            Ok(None)
        }
    }

    /// Collects what a node and all below it define.
    fn collect_symbols(
        &mut self,
        nodes: &Vec<SyntaxNode>,
        at: usize,
        stop: usize,
        scopes: &mut Vec<ActiveScope>,
    ) -> (outcome: Result<(), String>)
        requires
            at < stop <= nodes@.len(),
            scopes_known(old(scopes)@, old(self).symbols@.len()),
        ensures
            final(self).given(nodes@) == old(self).given(nodes@),
            final(self).records() == old(self).records(),
            match outcome {
                Ok(()) => defined_by(
                    old(self).given(nodes@),
                    at as int,
                    stop as int,
                    old(scopes)@,
                    old(self).defined(),
                ) == Ok::<Defined, Seq<char>>(final(self).defined()) && final(scopes)@ == old(
                    scopes,
                )@ && final(self).symbols@.len() >= old(self).symbols@.len(),
                Err(message) => defined_by(
                    old(self).given(nodes@),
                    at as int,
                    stop as int,
                    old(scopes)@,
                    old(self).defined(),
                ) == Err::<Defined, Seq<char>>(message@),
            },
        decreases stop - at, 0int,
    {
        let scope = match self.define(nodes, at, stop, scopes) {
            Ok(scope) => scope,
            Err(message) => {
                return Err(message);
            },
        };
        match scope {
            Some(opened_scope) => {
                scopes.push(opened_scope);
            },
            None => {},
        }
        assert(scopes@ == opened(old(scopes)@, scope));
        match self.collect_below(nodes, at + 1, stop, scopes) {
            Ok(()) => {},
            Err(message) => {
                return Err(message);
            },
        }
        if scope.is_some() {
            scopes.pop();
        }
        assert(scopes@ =~= old(scopes)@);
        Ok(())
    }

    /// Collects what siblings and all below them define.
    fn collect_below(
        &mut self,
        nodes: &Vec<SyntaxNode>,
        first: usize,
        stop: usize,
        scopes: &mut Vec<ActiveScope>,
    ) -> (outcome: Result<(), String>)
        requires
            first <= stop <= nodes@.len(),
            scopes_known(old(scopes)@, old(self).symbols@.len()),
        ensures
            final(self).given(nodes@) == old(self).given(nodes@),
            final(self).records() == old(self).records(),
            match outcome {
                Ok(()) => defined_below(
                    old(self).given(nodes@),
                    first as int,
                    stop as int,
                    old(scopes)@,
                    old(self).defined(),
                ) == Ok::<Defined, Seq<char>>(final(self).defined()) && final(scopes)@ == old(
                    scopes,
                )@ && final(self).symbols@.len() >= old(self).symbols@.len(),
                Err(message) => defined_below(
                    old(self).given(nodes@),
                    first as int,
                    stop as int,
                    old(scopes)@,
                    old(self).defined(),
                ) == Err::<Defined, Seq<char>>(message@),
            },
        decreases stop - first, 1int,
    {
        let ghost given = self.given(nodes@);
        let ghost start = self.defined();
        let mut child: usize = first;
        while child < stop
            invariant
                first <= child <= stop <= nodes@.len(),
                self.given(nodes@) == given,
                given == old(self).given(nodes@),
                self.records() == old(self).records(),
                start == old(self).defined(),
                scopes@ == old(scopes)@,
                scopes_known(scopes@, self.symbols@.len()),
                self.symbols@.len() >= old(self).symbols@.len(),
                defined_below(given, first as int, stop as int, scopes@, start) == defined_below(
                    given,
                    child as int,
                    stop as int,
                    scopes@,
                    self.defined(),
                ),
            decreases stop - child,
        {
            let next = syntax::node_end(nodes, child, stop);
            if self.named(nodes, child) {
                match self.collect_symbols(nodes, child, next, scopes) {
                    Ok(()) => {},
                    Err(message) => {
                        return Err(message);
                    },
                }
            }
            child = next;
        }
        Ok(())
    }
}

/// Tests whether a symbol is known by a name in a scope, and finds the last one.
fn find_symbol(
    symbols: &Vec<ParsedSymbol>,
    name: &str,
    parent_id: Option<ParsedSymbolId>,
    callable_only: bool,
) -> (found: Option<ParsedSymbolId>)
    ensures
        found == last_symbol(parser::symbols_shown(symbols@), name@, parent_id, callable_only),
{
    let ghost shown = parser::symbols_shown(symbols@);
    let mut count: usize = symbols.len();
    assert(shown.take(count as int) =~= shown);
    while count > 0
        invariant
            count <= symbols@.len(),
            shown == parser::symbols_shown(symbols@),
            last_symbol(shown, name@, parent_id, callable_only) == last_symbol(
                shown.take(count as int),
                name@,
                parent_id,
                callable_only,
            ),
        decreases count,
    {
        assert(shown.take(count as int).drop_last() =~= shown.take(count - 1));
        count = count - 1;
        let symbol = &symbols[count];
        assert(shown[count as int] == symbol@);
        if text::same_text(symbol.name.as_str(), name) && symbol.parent_id == parent_id && (
        !callable_only || can_be_called(&symbol.kind)) {
            return Some(symbol.local_id);
        }
    }
    None
}

impl<'source> Extractor<'source> {
    /// Finds the symbol that a name means in a scope.
    fn resolve_local(&self, name: &str, scopes: &Vec<ActiveScope>, callable_only: bool) -> (found:
        Option<ParsedSymbolId>)
        ensures
            found == resolved(self.defined().symbols, name@, scopes@, false, callable_only),
    {
        let ghost symbols = self.defined().symbols;
        let mut crossed_function = false;
        let mut count: usize = scopes.len();
        assert(scopes@.take(count as int) =~= scopes@);
        while count > 0
            invariant
                count <= scopes@.len(),
                symbols == self.defined().symbols,
                resolved(symbols, name@, scopes@, false, callable_only) == resolved(
                    symbols,
                    name@,
                    scopes@.take(count as int),
                    crossed_function,
                    callable_only,
                ),
            decreases count,
        {
            assert(scopes@.take(count as int).drop_last() =~= scopes@.take(count - 1));
            count = count - 1;
            let scope = scopes[count];
            if !scope.is_class || !crossed_function {
                let found = find_symbol(&self.symbols, name, Some(scope.id), callable_only);
                if found.is_some() {
                    return found;
                }
            }
            if !scope.is_class {
                crossed_function = true;
            }
        }
        find_symbol(&self.symbols, name, None, callable_only)
    }

    /// The target that a node names.
    fn target(
        &self,
        nodes: &Vec<SyntaxNode>,
        at: usize,
        stop: usize,
        scopes: &Vec<ActiveScope>,
        callable_only: bool,
    ) -> (found: Result<ParsedTarget, String>)
        requires
            at < stop <= nodes@.len(),
        ensures
            match found {
                Ok(target) => target_of(
                    self.given(nodes@),
                    at as int,
                    stop as int,
                    self.defined().symbols,
                    scopes@,
                    callable_only,
                ) == Ok::<TargetShown, Seq<char>>(target@),
                Err(message) => target_of(
                    self.given(nodes@),
                    at as int,
                    stop as int,
                    self.defined().symbols,
                    scopes@,
                    callable_only,
                ) == Err::<TargetShown, Seq<char>>(message@),
            },
    {
        let name = match self.name_of(nodes, at, stop) {
            Ok(name) => name,
            Err(message) => {
                return Err(message);
            },
        };
        if self.is(nodes, at, "identifier") {
            match self.resolve_local(name.as_str(), scopes, callable_only) {
                Some(id) => {
                    return Ok(ParsedTarget::Local(id));
                },
                None => {},
            }
        }
        Ok(ParsedTarget::Unresolved(name))
    }

    /// The name and the alias of an imported item.
    fn read_import_item(&self, nodes: &Vec<SyntaxNode>, at: usize, stop: usize) -> (item: Result<
        (String, Option<String>),
        String,
    >)
        requires
            at < stop <= nodes@.len(),
        ensures
            match item {
                Ok(item) => import_item(self.given(nodes@), at as int, stop as int) == Ok::<
                    (Seq<char>, Option<Seq<char>>),
                    Seq<char>,
                >(
                    (
                        item.0@,
                        match item.1 {
                            Some(alias) => Some(alias@),
                            None => None,
                        },
                    ),
                ),
                Err(message) => import_item(self.given(nodes@), at as int, stop as int) == Err::<
                    (Seq<char>, Option<Seq<char>>),
                    Seq<char>,
                >(message@),
            },
    {
        let name = if self.is(nodes, at, "aliased_import") {
            syntax::find_field(nodes, at, stop, "name")
        } else {
            None
        };
        let child = match name {
            Some(child) => child,
            None => {
                return match self.text(nodes, at) {
                    Ok(found) => Ok((found, None)),
                    Err(message) => Err(message),
                };
            },
        };
        let alias = match syntax::find_field(nodes, at, stop, "alias") {
            Some(alias) => match self.text(nodes, alias) {
                Ok(shown) => Some(shown),
                Err(message) => {
                    return Err(message);
                },
            },
            None => None,
        };
        match self.text(nodes, child) {
            Ok(found) => Ok((found, alias)),
            Err(message) => Err(message),
        }
    }

    /// Adds the import of one item.
    fn add_item(
        &mut self,
        nodes: &Vec<SyntaxNode>,
        at: usize,
        stop: usize,
        module: Option<&str>,
    ) -> (outcome: Result<(), String>)
        requires
            at < stop <= nodes@.len(),
        ensures
            final(self).given(nodes@) == old(self).given(nodes@),
            final(self).defined() == old(self).defined(),
            tells(
                outcome,
                old(self).records().with_item(
                    old(self).given(nodes@),
                    at as int,
                    stop as int,
                    shown_module(module),
                ),
                final(self).records(),
            ),
    {
        let (name, alias) = match self.read_import_item(nodes, at, stop) {
            Ok(item) => item,
            Err(message) => {
                return Err(message);
            },
        };
        let span = match self.span(nodes, at) {
            Ok(span) => span,
            Err(message) => {
                return Err(message);
            },
        };
        let target = match module {
            Some(module) => join_import_target(module, name.as_str()),
            None => name,
        };
        self.imports.push(ParsedImport { target, span, alias });
        assert(self.records().imports =~= old(self).records().imports.push(self.imports@.last()@));
        Ok(())
    }

    /// Adds the imports of all items of a statement.
    fn add_items(
        &mut self,
        nodes: &Vec<SyntaxNode>,
        at: usize,
        stop: usize,
        module: Option<&str>,
    ) -> (outcome: Result<(), String>)
        requires
            at < stop <= nodes@.len(),
        ensures
            final(self).given(nodes@) == old(self).given(nodes@),
            final(self).defined() == old(self).defined(),
            tells(
                outcome,
                old(self).records().with_items(
                    old(self).given(nodes@),
                    at + 1,
                    stop as int,
                    shown_module(module),
                ),
                final(self).records(),
            ),
    {
        let ghost given = self.given(nodes@);
        let ghost start = self.records();
        let mut child: usize = at + 1;
        while child < stop
            invariant
                at < child <= stop <= nodes@.len(),
                self.given(nodes@) == given,
                given == old(self).given(nodes@),
                self.defined() == old(self).defined(),
                start == old(self).records(),
                start.with_items(given, at + 1, stop as int, shown_module(module))
                    == self.records().with_items(
                    given,
                    child as int,
                    stop as int,
                    shown_module(module),
                ),
            decreases stop - child,
        {
            let next = syntax::node_end(nodes, child, stop);
            assert(syntax::nodes_shown(nodes@)[child as int] == nodes@[child as int]@);
            if syntax::is_field(&nodes[child], "name") {
                match self.add_item(nodes, child, next, module) {
                    Ok(()) => {},
                    Err(message) => {
                        return Err(message);
                    },
                }
            }
            child = next;
        }
        Ok(())
    }

    /// Adds the import of all that a module has.
    fn add_wildcard_import(
        &mut self,
        nodes: &Vec<SyntaxNode>,
        at: usize,
        stop: usize,
        module: &str,
    ) -> (outcome: Result<(), String>)
        requires
            at < stop <= nodes@.len(),
        ensures
            final(self).given(nodes@) == old(self).given(nodes@),
            final(self).defined() == old(self).defined(),
            tells(
                outcome,
                old(self).records().with_wildcard(
                    old(self).given(nodes@),
                    at + 1,
                    stop as int,
                    module@,
                ),
                final(self).records(),
            ),
    {
        let ghost given = self.given(nodes@);
        let ghost start = self.records();
        let mut child: usize = at + 1;
        while child < stop
            invariant
                at < child <= stop <= nodes@.len(),
                self.given(nodes@) == given,
                given == old(self).given(nodes@),
                self.defined() == old(self).defined(),
                start == old(self).records(),
                self.records() == start,
                start.with_wildcard(given, at + 1, stop as int, module@) == start.with_wildcard(
                    given,
                    child as int,
                    stop as int,
                    module@,
                ),
            decreases stop - child,
        {
            let next = syntax::node_end(nodes, child, stop);
            if self.is(nodes, child, "*") || self.is(nodes, child, "wildcard_import") {
                let span = match self.span(nodes, child) {
                    Ok(span) => span,
                    Err(message) => {
                        return Err(message);
                    },
                };
                self.imports.push(
                    ParsedImport { target: join_import_target(module, "*"), span, alias: None },
                );
                assert(self.records().imports =~= start.imports.push(self.imports@.last()@));
                return Ok(());
            }
            child = next;
        }
        Ok(())
    }

    /// Adds what is imported from a module.
    fn add_from_import(&mut self, nodes: &Vec<SyntaxNode>, at: usize, stop: usize) -> (outcome:
        Result<(), String>)
        requires
            at < stop <= nodes@.len(),
        ensures
            final(self).given(nodes@) == old(self).given(nodes@),
            final(self).defined() == old(self).defined(),
            tells(
                outcome,
                old(self).records().with_from_import(
                    old(self).given(nodes@),
                    at as int,
                    stop as int,
                ),
                final(self).records(),
            ),
    {
        let child = match syntax::find_field(nodes, at, stop, "module_name") {
            Some(child) => child,
            None => {
                return Ok(());
            },
        };
        let module = match self.text(nodes, child) {
            Ok(module) => module,
            Err(message) => {
                return Err(message);
            },
        };
        if syntax::find_field(nodes, at, stop, "name").is_some() {
            self.add_items(nodes, at, stop, Some(module.as_str()))
        } else {
            self.add_wildcard_import(nodes, at, stop, module.as_str())
        }
    }

    /// Adds a call.
    fn add_call(
        &mut self,
        nodes: &Vec<SyntaxNode>,
        at: usize,
        stop: usize,
        scopes: &Vec<ActiveScope>,
    ) -> (outcome: Result<(), String>)
        requires
            at < stop <= nodes@.len(),
        ensures
            final(self).given(nodes@) == old(self).given(nodes@),
            final(self).defined() == old(self).defined(),
            tells(
                outcome,
                old(self).records().with_call(
                    old(self).given(nodes@),
                    at as int,
                    stop as int,
                    old(self).defined().symbols,
                    scopes@,
                ),
                final(self).records(),
            ),
    {
        let function = match syntax::find_field(nodes, at, stop, "function") {
            Some(child) => child,
            None => {
                return Ok(());
            },
        };
        let end = syntax::node_end(nodes, function, stop);
        let target = match self.target(nodes, function, end, scopes, true) {
            Ok(target) => target,
            Err(message) => {
                return Err(message);
            },
        };
        let span = match self.span(nodes, at) {
            Ok(span) => span,
            Err(message) => {
                return Err(message);
            },
        };
        self.calls.push(
            ParsedCall { caller_id: innermost_scope(scopes), target, span, confidence: None },
        );
        assert(self.records().calls =~= old(self).records().calls.push(self.calls@.last()@));
        Ok(())
    }

    /// Adds a reference.
    fn add_reference(
        &mut self,
        nodes: &Vec<SyntaxNode>,
        at: usize,
        stop: usize,
        scopes: &Vec<ActiveScope>,
        kind: ReferenceKind,
    ) -> (outcome: Result<(), String>)
        requires
            at < stop <= nodes@.len(),
        ensures
            final(self).given(nodes@) == old(self).given(nodes@),
            final(self).defined() == old(self).defined(),
            tells(
                outcome,
                old(self).records().with_reference(
                    old(self).given(nodes@),
                    at as int,
                    stop as int,
                    old(self).defined().symbols,
                    scopes@,
                    kind,
                ),
                final(self).records(),
            ),
    {
        let target = match self.target(nodes, at, stop, scopes, false) {
            Ok(target) => target,
            Err(message) => {
                return Err(message);
            },
        };
        let span = match self.span(nodes, at) {
            Ok(span) => span,
            Err(message) => {
                return Err(message);
            },
        };
        self.references.push(
            ParsedReference { source_id: innermost_scope(scopes), target, kind, span },
        );
        assert(self.records().references =~= old(self).records().references.push(
            self.references@.last()@,
        ));
        Ok(())
    }

    /// Adds references to what a class inherits from.
    fn add_inheritance_references(
        &mut self,
        nodes: &Vec<SyntaxNode>,
        at: usize,
        stop: usize,
        scopes: &Vec<ActiveScope>,
    ) -> (outcome: Result<(), String>)
        requires
            at < stop <= nodes@.len(),
        ensures
            final(self).given(nodes@) == old(self).given(nodes@),
            final(self).defined() == old(self).defined(),
            tells(
                outcome,
                old(self).records().with_inheritance(
                    old(self).given(nodes@),
                    at as int,
                    stop as int,
                    old(self).defined().symbols,
                    scopes@,
                ),
                final(self).records(),
            ),
    {
        let arguments = match syntax::find_field(nodes, at, stop, "superclasses") {
            Some(child) => child,
            None => {
                return Ok(());
            },
        };
        let end = syntax::node_end(nodes, arguments, stop);
        let ghost given = self.given(nodes@);
        let ghost start = self.records();
        let ghost symbols = self.defined().symbols;
        let mut base: usize = arguments + 1;
        while base < end
            invariant
                arguments < base <= end <= nodes@.len(),
                self.given(nodes@) == given,
                given == old(self).given(nodes@),
                self.defined() == old(self).defined(),
                symbols == self.defined().symbols,
                start == old(self).records(),
                start.with_inheritance(given, at as int, stop as int, symbols, scopes@)
                    == self.records().with_bases(
                    given,
                    base as int,
                    end as int,
                    symbols,
                    scopes@,
                ),
            decreases end - base,
        {
            let next = syntax::node_end(nodes, base, end);
            if self.named(nodes, base) && !self.is(nodes, base, "keyword_argument") {
                let reference = self.inheritance_node(nodes, base, next);
                match self.add_reference(
                    nodes,
                    reference.0,
                    reference.1,
                    scopes,
                    ReferenceKind::Inheritance,
                ) {
                    Ok(()) => {},
                    Err(message) => {
                        return Err(message);
                    },
                }
            }
            base = next;
        }
        Ok(())
    }

    /// Adds references to the types that an annotation names.
    fn add_type_references(
        &mut self,
        nodes: &Vec<SyntaxNode>,
        at: usize,
        stop: usize,
        scopes: &Vec<ActiveScope>,
    ) -> (outcome: Result<(), String>)
        requires
            at < stop <= nodes@.len(),
        ensures
            final(self).given(nodes@) == old(self).given(nodes@),
            final(self).defined() == old(self).defined(),
            tells(
                outcome,
                old(self).records().with_annotation(
                    old(self).given(nodes@),
                    at as int,
                    stop as int,
                    old(self).defined().symbols,
                    scopes@,
                ),
                final(self).records(),
            ),
        decreases stop - at,
    {
        if self.is(nodes, at, "identifier") || self.is(nodes, at, "none") || self.is(
            nodes,
            at,
            "attribute",
        ) || self.is(nodes, at, "member_type") {
            return self.add_reference(nodes, at, stop, scopes, ReferenceKind::Type);
        }
        if self.is(nodes, at, "string") || self.is(nodes, at, "concatenated_string") {
            return Ok(());
        }
        let ghost given = self.given(nodes@);
        let ghost start = self.records();
        let ghost symbols = self.defined().symbols;
        let mut child: usize = at + 1;
        while child < stop
            invariant
                at < child <= stop <= nodes@.len(),
                self.given(nodes@) == given,
                given == old(self).given(nodes@),
                self.defined() == old(self).defined(),
                symbols == self.defined().symbols,
                start == old(self).records(),
                start.with_annotation(given, at as int, stop as int, symbols, scopes@)
                    == self.records().with_annotations(
                    given,
                    child as int,
                    stop as int,
                    symbols,
                    scopes@,
                ),
            decreases stop - child,
        {
            let next = syntax::node_end(nodes, child, stop);
            if self.named(nodes, child) {
                match self.add_type_references(nodes, child, next, scopes) {
                    Ok(()) => {},
                    Err(message) => {
                        return Err(message);
                    },
                }
            }
            child = next;
        }
        Ok(())
    }

    /// Adds the entry point that a main guard is.
    fn add_main_guard(&mut self, nodes: &Vec<SyntaxNode>, at: usize, stop: usize) -> (outcome:
        Result<(), String>)
        requires
            at < stop <= nodes@.len(),
        ensures
            final(self).given(nodes@) == old(self).given(nodes@),
            final(self).defined() == old(self).defined(),
            tells(
                outcome,
                old(self).records().with_main_guard(
                    old(self).given(nodes@),
                    at as int,
                    stop as int,
                ),
                final(self).records(),
            ),
    {
        let condition = match syntax::find_field(nodes, at, stop, "condition") {
            Some(child) => child,
            None => {
                return Ok(());
            },
        };
        let compact = match self.text(nodes, condition) {
            Ok(found) => wrap::compact_text(found.as_str()),
            Err(message) => {
                return Err(message);
            },
        };
        if !guards_main(compact.as_str()) {
            return Ok(());
        }
        let span = match self.span(nodes, at) {
            Ok(span) => span,
            Err(message) => {
                return Err(message);
            },
        };
        self.entry_points.push(
            ParsedEntryPoint {
                kind: EntryPointKind::Executable,
                label: "Python __main__ guard".to_owned(),
                symbol_id: None,
                span,
            },
        );
        assert(self.records().entry_points =~= old(self).records().entry_points.push(
            self.entry_points@.last()@,
        ));
        Ok(())
    }

    /// Adds what a node itself is.
    fn record(
        &mut self,
        nodes: &Vec<SyntaxNode>,
        at: usize,
        stop: usize,
        scopes: &Vec<ActiveScope>,
    ) -> (outcome: Result<(), String>)
        requires
            at < stop <= nodes@.len(),
        ensures
            final(self).given(nodes@) == old(self).given(nodes@),
            final(self).defined() == old(self).defined(),
            tells(
                outcome,
                old(self).records().with_node(
                    old(self).given(nodes@),
                    at as int,
                    stop as int,
                    old(self).defined().symbols,
                    scopes@,
                ),
                final(self).records(),
            ),
    {
        if self.is(nodes, at, "import_statement") {
            self.add_items(nodes, at, stop, None)
        } else if self.is(nodes, at, "import_from_statement") {
            self.add_from_import(nodes, at, stop)
        } else if self.is(nodes, at, "future_import_statement") {
            self.add_items(nodes, at, stop, Some("__future__"))
        } else if self.is(nodes, at, "call") {
            self.add_call(nodes, at, stop, scopes)
        } else if self.is(nodes, at, "class_definition") {
            self.add_inheritance_references(nodes, at, stop, scopes)
        } else if self.is(nodes, at, "if_statement") && scopes.len() == 0 {
            self.add_main_guard(nodes, at, stop)
        } else {
            Ok(())
        }
    }

    /// Collects what a node and all below it import, call and refer to.
    fn collect_records(
        &mut self,
        nodes: &Vec<SyntaxNode>,
        at: usize,
        stop: usize,
        scopes: &mut Vec<ActiveScope>,
    ) -> (outcome: Result<(), String>)
        requires
            at < stop <= nodes@.len(),
        ensures
            outcome is Ok ==> final(scopes)@ == old(scopes)@,
            final(self).given(nodes@) == old(self).given(nodes@),
            final(self).defined() == old(self).defined(),
            tells(
                outcome,
                recorded(
                    old(self).given(nodes@),
                    at as int,
                    stop as int,
                    old(self).defined(),
                    old(scopes)@,
                    old(self).records(),
                ),
                final(self).records(),
            ),
        decreases stop - at, 0int,
    {
        let scope = match self.scopes.get(&at) {
            Some(scope) => Some(*scope),
            None => None,
        };
        assert(scope == scope_at(self.defined(), at as int));
        match scope {
            Some(opened_scope) => {
                scopes.push(opened_scope);
            },
            None => {},
        }
        assert(scopes@ == opened(old(scopes)@, scope));
        match self.record(nodes, at, stop, scopes) {
            Ok(()) => {},
            Err(message) => {
                return Err(message);
            },
        }
        match self.records_below(nodes, at + 1, stop, scopes) {
            Ok(()) => {},
            Err(message) => {
                return Err(message);
            },
        }
        if scope.is_some() {
            scopes.pop();
        }
        assert(scopes@ =~= old(scopes)@);
        Ok(())
    }

    /// Collects what siblings and all below them import, call and refer to.
    fn records_below(
        &mut self,
        nodes: &Vec<SyntaxNode>,
        first: usize,
        stop: usize,
        scopes: &mut Vec<ActiveScope>,
    ) -> (outcome: Result<(), String>)
        requires
            first <= stop <= nodes@.len(),
        ensures
            outcome is Ok ==> final(scopes)@ == old(scopes)@,
            final(self).given(nodes@) == old(self).given(nodes@),
            final(self).defined() == old(self).defined(),
            tells(
                outcome,
                recorded_below(
                    old(self).given(nodes@),
                    first as int,
                    stop as int,
                    old(self).defined(),
                    old(scopes)@,
                    old(self).records(),
                ),
                final(self).records(),
            ),
        decreases stop - first, 1int,
    {
        let ghost given = self.given(nodes@);
        let ghost start = self.records();
        let ghost defined = self.defined();
        let mut child: usize = first;
        while child < stop
            invariant
                first <= child <= stop <= nodes@.len(),
                self.given(nodes@) == given,
                given == old(self).given(nodes@),
                self.defined() == defined,
                defined == old(self).defined(),
                start == old(self).records(),
                scopes@ == old(scopes)@,
                recorded_below(given, first as int, stop as int, defined, scopes@, start)
                    == recorded_below(
                    given,
                    child as int,
                    stop as int,
                    defined,
                    scopes@,
                    self.records(),
                ),
            decreases stop - child,
        {
            let next = syntax::node_end(nodes, child, stop);
            assert(syntax::nodes_shown(nodes@)[child as int] == nodes@[child as int]@);
            if self.named(nodes, child) {
                if syntax::is_field(&nodes[child], "type") || syntax::is_field(
                    &nodes[child],
                    "return_type",
                ) {
                    match self.add_type_references(nodes, child, next, scopes) {
                        Ok(()) => {},
                        Err(message) => {
                            return Err(message);
                        },
                    }
                }
                match self.collect_records(nodes, child, next, scopes) {
                    Ok(()) => {},
                    Err(message) => {
                        return Err(message);
                    },
                }
            }
            child = next;
        }
        Ok(())
    }
}

/// What is imported from, as text.
spec fn shown_module(module: Option<&str>) -> Option<Seq<char>> {
    match module {
        Some(module) => Some(module@),
        None => None,
    }
}

fn holds_id(ids: &Vec<ParsedSymbolId>, wanted: ParsedSymbolId) -> (found: bool)
    ensures
        found == ids@.contains(wanted),
{
    let mut index: usize = 0;
    while index < ids.len()
        invariant
            index <= ids@.len(),
            forall|i: int| 0 <= i < index ==> ids@[i] != wanted,
        decreases ids@.len() - index,
    {
        if ids[index] == wanted {
            return true;
        }
        index = index + 1;
    }
    false
}

impl<'source> Extractor<'source> {
    /// Tests whether a class of tests has an ID.
    fn is_test_class(&self, wanted: ParsedSymbolId) -> (found: bool)
        ensures
            found == is_test_class_id(self.defined(), wanted),
    {
        let ghost defined = self.defined();
        let mut index: usize = 0;
        while index < self.symbols.len()
            invariant
                index <= self.symbols@.len(),
                defined == self.defined(),
                forall|i: int|
                    0 <= i < index ==> !(is_test_class(defined, #[trigger] defined.symbols[i])
                        && defined.symbols[i].local_id == wanted),
            decreases self.symbols@.len() - index,
        {
            let symbol = &self.symbols[index];
            assert(defined.symbols[index as int] == symbol@);
            let class = match symbol.kind {
                SymbolKind::Class => true,
                _ => false,
            };
            if symbol.local_id == wanted && class && symbol.parent_id.is_none() && (has_prefix(
                symbol.name.as_str(),
                "Test",
            ) || holds_id(&self.test_cases, symbol.local_id)) {
                return true;
            }
            index = index + 1;
        }
        false
    }

    /// Tests whether a symbol is a test.
    fn tests(&self, symbol: &ParsedSymbol) -> (found: bool)
        ensures
            found == is_test(self.defined(), symbol@),
    {
        match symbol.kind {
            SymbolKind::Class => self.is_test_class(symbol.local_id),
            SymbolKind::Function => symbol.parent_id.is_none() && has_prefix(
                symbol.name.as_str(),
                "test_",
            ),
            SymbolKind::Method => match symbol.parent_id {
                Some(parent_id) => has_prefix(symbol.name.as_str(), "test_") && self.is_test_class(
                    parent_id,
                ),
                None => false,
            },
            _ => false,
        }
    }

    /// Adds the entry points that tests are.
    fn add_test_entry_points(&mut self)
        ensures
            final(self).defined() == old(self).defined(),
            final(self).records() == (Records {
                entry_points: with_tests(
                    old(self).records().entry_points,
                    old(self).defined(),
                    old(self).defined().symbols.len(),
                ),
                ..old(self).records()
            }),
    {
        let ghost defined = self.defined();
        let ghost start = self.records();
        let mut index: usize = 0;
        while index < self.symbols.len()
            invariant
                index <= self.symbols@.len(),
                defined == self.defined(),
                defined == old(self).defined(),
                start == old(self).records(),
                self.records() == (Records {
                    entry_points: with_tests(start.entry_points, defined, index as nat),
                    ..start
                }),
            decreases self.symbols@.len() - index,
        {
            let symbol = &self.symbols[index];
            assert(defined.symbols[index as int] == symbol@);
            if self.tests(symbol) {
                let entry = ParsedEntryPoint {
                    kind: EntryPointKind::Test,
                    label: symbol.qualified_name.clone(),
                    symbol_id: Some(symbol.local_id),
                    span: symbol.span,
                };
                let ghost before = self.records();
                self.entry_points.push(entry);
                assert(self.records().entry_points =~= before.entry_points.push(entry@));
            }
            index = index + 1;
        }
    }

    /// Puts all records in the order of the source.
    fn sort_records(&mut self)
        ensures
            final(self).defined() == old(self).defined(),
            final(self).records() == (Records {
                imports: sort::stable_sorted_by(old(self).records().imports, import_order()),
                references: sort::stable_sorted_by(
                    old(self).records().references,
                    reference_order(),
                ),
                calls: sort::stable_sorted_by(old(self).records().calls, call_order()),
                entry_points: sort::stable_sorted_by(
                    old(self).records().entry_points,
                    entry_order(),
                ),
            }),
    {
        sort::stable_sort(&mut self.imports);
        sort::stable_sort(&mut self.references);
        sort::stable_sort(&mut self.calls);
        sort::stable_sort(&mut self.entry_points);
        proof {
            sort::lemma_sorted_view(
                old(self).imports@,
                |import: ParsedImport| import@,
                import_order(),
            );
            sort::lemma_sorted_view(
                old(self).references@,
                |reference: ParsedReference| reference@,
                reference_order(),
            );
            sort::lemma_sorted_view(old(self).calls@, |call: ParsedCall| call@, call_order());
            sort::lemma_sorted_view(
                old(self).entry_points@,
                |entry: ParsedEntryPoint| entry@,
                entry_order(),
            );
        }
    }
}

/// Finds the path of a Python file without its suffix.
fn strip_python_suffix(path: &str) -> (stem: Option<Vec<char>>)
    ensures
        match stem {
            Some(stem) => path_stem(path@) == Some(stem@),
            None => path_stem(path@) is None,
        },
{
    let chars = text::chars_of(path);
    let dot: [char; 1] = ['.'];
    assert(dot@ =~= seq!['.']);
    let at = match text::find_last(chars.as_slice(), dot.as_slice()) {
        Some(at) => at,
        None => {
            return None;
        },
    };
    let mut extension: Vec<char> = Vec::new();
    assert(at < chars.len());
    let ghost own = path@.skip(at + 1);
    let mut index: usize = at + 1;
    while index < chars.len()
        invariant
            at < index <= chars@.len(),
            chars@ == path@,
            own == path@.skip(at + 1),
            extension@ == lowered(own).take(index - at - 1),
        decreases chars@.len() - index,
    {
        let ghost before = extension@;
        extension.push(text::ascii_lower_char(chars[index]));
        assert(own[index - at - 1] == chars@[index as int]);
        assert(extension@ =~= lowered(own).take(index - at));
        index = index + 1;
    }
    assert(lowered(own).take(own.len() as int) =~= lowered(own));
    let plain: [char; 2] = ['p', 'y'];
    let stub: [char; 3] = ['p', 'y', 'i'];
    assert(plain@ =~= seq!['p', 'y']);
    assert(stub@ =~= seq!['p', 'y', 'i']);
    if text::same_chars(extension.as_slice(), plain.as_slice()) || text::same_chars(
        extension.as_slice(),
        stub.as_slice(),
    ) {
        let mut stem: Vec<char> = Vec::new();
        stem.extend_from_slice(slice_subrange(chars.as_slice(), 0, at));
        assert(stem@ =~= path@.take(at as int));
        Some(stem)
    } else {
        None
    }
}

/// Finds the name and the full name of the module that a file is.
fn find_module_names(path: &str) -> (names: Result<(String, String), String>)
    ensures
        match names {
            Ok(names) => module_names(path@) == Ok::<(Seq<char>, Seq<char>), Seq<char>>(
                (names.0@, names.1@),
            ),
            Err(message) => module_names(path@) == Err::<(Seq<char>, Seq<char>), Seq<char>>(
                message@,
            ),
        },
{
    let stem = match strip_python_suffix(path) {
        Some(stem) => stem,
        None => {
            return Err("expected a .py or .pyi repository path".to_owned());
        },
    };
    let parts = text::split_chars(stem.as_slice(), '/');
    let ghost components = text::slice_views(parts@);
    proof {
        text::lemma_split_ends(stem@, '/');
    }
    let count = parts.len();
    let last = parts[count - 1];
    assert(components.last() == last@);
    if last.len() == 0 {
        let mut message = "cannot derive a Python module from ".to_owned();
        message.push_str(path);
        return Err(message);
    }
    let init = text::chars_of("__init__");
    let kept: usize = if count > 1 && text::same_chars(last, init.as_slice()) {
        count - 1
    } else {
        count
    };
    let ghost names = components.take(kept as int);
    proof {
        if kept == count {
            assert(names =~= components);
        } else {
            assert(names =~= components.drop_last());
        }
    }
    let mut full = String::new();
    let mut index: usize = 0;
    assert(names.take(0) =~= Seq::empty());
    while index < kept
        invariant
            index <= kept <= parts@.len(),
            components == text::slice_views(parts@),
            names == components.take(kept as int),
            full@ == dotted_names(names.take(index as int)),
        decreases kept - index,
    {
        assert(names.take(index + 1).drop_last() =~= names.take(index as int));
        assert(names[index as int] == parts@[index as int]@);
        if index > 0 {
            full.push_str(".");
        }
        text::push_chars(&mut full, parts[index]);
        assert(full@ =~= dotted_names(names.take(index + 1)));
        index = index + 1;
    }
    assert(names.take(kept as int) =~= names);
    assert(names.last() == parts@[kept - 1]@);
    Ok((text::string_of(parts[kept - 1]), full))
}

fn refusal(path: &RepositoryPath, message: String) -> (error: ParserError)
    ensures
        error.path == *path,
        error.message == message,
{
    ParserError { path: path.clone(), message }
}

/// Tells what a Python file holds, given the nodes of its syntax tree.
pub fn extract(path: &RepositoryPath, source: &str, nodes: &Vec<SyntaxNode>) -> (file: Result<
    ParsedFile,
    ParserError,
>)
    requires
        nodes@.len() > 0,
    ensures
        match file {
            Ok(file) => extracted(*path, source@, syntax::nodes_shown(nodes@)) == Ok::<
                FileShown,
                Seq<char>,
            >(file@),
            Err(error) => error.path == *path && extracted(
                *path,
                source@,
                syntax::nodes_shown(nodes@),
            ) == Err::<FileShown, Seq<char>>(error.message@),
        },
{
    let (name, qualified_name) = match find_module_names(path.as_str()) {
        Ok(names) => names,
        Err(message) => {
            return Err(refusal(path, message));
        },
    };
    assert(syntax::nodes_shown(nodes@)[0] == nodes@[0]@);
    let span = match read_span(&nodes[0]) {
        Ok(span) => span,
        Err(message) => {
            return Err(refusal(path, message));
        },
    };
    let mut extractor = Extractor {
        source,
        module: qualified_name.as_str(),
        symbols: Vec::new(),
        scopes: BTreeMap::new(),
        test_cases: Vec::new(),
        imports: Vec::new(),
        references: Vec::new(),
        calls: Vec::new(),
        entry_points: Vec::new(),
    };
    assert(extractor.defined() =~~= Defined {
        symbols: Seq::empty(),
        scopes: Map::empty(),
        test_cases: Seq::empty(),
    });
    assert(extractor.records() =~~= Records {
        imports: Seq::empty(),
        references: Seq::empty(),
        calls: Seq::empty(),
        entry_points: Seq::empty(),
    });
    let mut scopes: Vec<ActiveScope> = Vec::new();
    match extractor.collect_symbols(nodes, 0, nodes.len(), &mut scopes) {
        Ok(()) => {},
        Err(message) => {
            return Err(refusal(path, message));
        },
    }
    match extractor.collect_records(nodes, 0, nodes.len(), &mut scopes) {
        Ok(()) => {},
        Err(message) => {
            return Err(refusal(path, message));
        },
    }
    extractor.add_test_entry_points();
    extractor.sort_records();
    let symbols = extractor.symbols;
    let imports = extractor.imports;
    let references = extractor.references;
    let calls = extractor.calls;
    let entry_points = extractor.entry_points;
    Ok(
        ParsedFile {
            path: path.clone(),
            language: Language::Python,
            module: Some(ParsedModule { name, qualified_name, span: Some(span) }),
            symbols,
            imports,
            references,
            calls,
            entry_points,
        },
    )
}

/// Parses Python source files into language-neutral records.
#[derive(Debug, Clone, Copy)]
pub struct PythonParser;

/// Explicit adapter-style alias for [`PythonParser`].
pub type PythonParserAdapter = PythonParser;

impl Default for PythonParser {
    fn default() -> (parser: PythonParser)
        ensures
            parser == PythonParser,
    {
        PythonParser
    }
}

impl PythonParser {
    /// Creates a Python parser adapter.
    #[must_use]
    pub fn new() -> (parser: PythonParser)
        ensures
            parser == PythonParser,
    {
        PythonParser
    }

    /// Returns whether `path` has a supported `.py` or `.pyi` suffix.
    #[must_use]
    pub fn supports_path(path: &RepositoryPath) -> (supported: bool)
        ensures
            supported == (path_stem(path@) is Some),
    {
        strip_python_suffix(path.as_str()).is_some()
    }
}

/// What parsing a Python file comes to.
pub open spec fn parsed(path: RepositoryPath, source: Seq<char>) -> Result<FileShown, Seq<char>> {
    match module_names(path@) {
        Err(message) => Err(message),
        Ok(_) => match syntax::syntax_of(Grammar::Python, source) {
            Err(reason) => Err("could not load the Python grammar: "@ + reason),
            Ok(None) => Err("tree-sitter did not produce a syntax tree"@),
            Ok(Some(nodes)) => extracted(path, source, nodes),
        },
    }
}

impl ParserAdapter for PythonParser {
    fn language(&self) -> (language: Language)
        ensures
            language == Language::Python,
    {
        Language::Python
    }

    fn parse(&self, input: ParseInput<'_>) -> (file: Result<ParsedFile, ParserError>)
        ensures
            match file {
                Ok(file) => parsed(*input.path, input.source@) == Ok::<FileShown, Seq<char>>(file@),
                Err(error) => error.path == *input.path && parsed(*input.path, input.source@)
                    == Err::<FileShown, Seq<char>>(error.message@),
            },
    {
        match find_module_names(input.path.as_str()) {
            Ok(_) => {},
            Err(message) => {
                return Err(refusal(input.path, message));
            },
        }
        match syntax::parse_source(Grammar::Python, input.source) {
            Err(reason) => {
                let mut message = "could not load the Python grammar: ".to_owned();
                message.push_str(reason.as_str());
                Err(refusal(input.path, message))
            },
            Ok(None) => Err(
                refusal(input.path, "tree-sitter did not produce a syntax tree".to_owned()),
            ),
            Ok(Some(nodes)) => extract(input.path, input.source, &nodes),
        }
    }
}

} // verus!
