//! What the records of a Rust file say of its syntax tree.
use crate::ir::{EntryPointKind, ReferenceKind, SymbolKind};
use crate::lang_rust;
use crate::lang_rust::{Definition, Found, Given};
use crate::parser::{
    CallShown, EntryShown, FileShown, ImportShown, KindShown, ParsedSymbolId, ReferenceShown,
    SymbolShown, TargetShown,
};
use crate::path::RepositoryPath;
use crate::syntax;
use crate::syntax::NodeShown;
use crate::text;
use crate::tree;
use crate::wrap;
use vstd::prelude::*;

verus! {

/// Whether nodes of a kind define a symbol.
pub open spec fn defines(kind: Seq<char>) -> bool {
    ||| kind == "impl_item"@
    ||| has_name(kind)
}

/// Whether nodes of a kind define a symbol by a name.
pub open spec fn has_name(kind: Seq<char>) -> bool {
    ||| kind == "mod_item"@
    ||| kind == "function_item"@
    ||| kind == "function_signature_item"@
    ||| kind == "struct_item"@
    ||| kind == "enum_item"@
    ||| kind == "trait_item"@
    ||| kind == "type_item"@
    ||| kind == "associated_type"@
    ||| kind == "const_item"@
    ||| kind == "static_item"@
    ||| kind == "macro_definition"@
}

/// Whether a node is no comment, no attribute and no literal of the grammar.
pub open spec fn counts(nodes: Seq<NodeShown>, v: int) -> bool {
    let node = nodes[v];
    &&& v == 0 || node.named && node.kind != "line_comment"@ && node.kind != "block_comment"@
    &&& node.kind != "attribute_item"@
}

/// Whether a node and all above it count, and it does not stand inside an import.
pub open spec fn reached(nodes: Seq<NodeShown>, v: int) -> bool {
    &&& 0 <= v < nodes.len()
    &&& counts(nodes, v)
    &&& forall|u: int| #[trigger]
        tree::below(nodes, u, v) ==> counts(nodes, u) && nodes[u].kind != "use_declaration"@
}

/// Whether the node at `u` is the innermost definition around the node at `v`.
pub open spec fn owner(nodes: Seq<NodeShown>, u: int, v: int) -> bool {
    &&& tree::below(nodes, u, v)
    &&& defines(nodes[u].kind)
    &&& forall|w: int| #[trigger]
        tree::below(nodes, w, v) && u < w ==> !defines(nodes[w].kind)
}

/// Whether a local ID is that of the innermost definition around a node, where `places`
/// are the nodes of the symbols; where there is no definition around it there is no ID.
pub open spec fn enclosed(
    nodes: Seq<NodeShown>,
    places: Seq<int>,
    id: Option<ParsedSymbolId>,
    v: int,
) -> bool {
    match id {
        None => forall|u: int| #[trigger] tree::below(nodes, u, v) ==> !defines(nodes[u].kind),
        Some(id) => id.0 < places.len() && owner(nodes, places[id.0 as int], v),
    }
}

/// Whether an implementation or a trait stands above a node, and no module between them.
pub open spec fn in_block(nodes: Seq<NodeShown>, v: int) -> bool {
    exists|u: int|
        {
            &&& #[trigger] tree::below(nodes, u, v)
            &&& nodes[u].kind == "impl_item"@ || nodes[u].kind == "trait_item"@
            &&& forall|w: int| #[trigger]
                tree::below(nodes, w, v) && u < w ==> nodes[w].kind != "mod_item"@
                    && nodes[w].kind != "source_file"@
        }
}

pub open spec fn is_identifier() -> spec_fn(NodeShown) -> bool {
    |node: NodeShown|
        node.named && (node.kind == "identifier"@ || node.kind == "type_identifier"@)
}

/// Whether the node at `c` is the name of the definition at `v`: the child with that
/// role, or else its first identifier.
pub open spec fn names(nodes: Seq<NodeShown>, v: int, c: int) -> bool {
    ||| tree::first_child(nodes, v, c, tree::with_field("name"@))
    ||| tree::no_child(nodes, v, tree::with_field("name"@)) && tree::first_child(
        nodes,
        v,
        c,
        is_identifier(),
    )
}

/// Whether a node is the name of the definition that it is a child of.
pub open spec fn is_name(nodes: Seq<NodeShown>, c: int) -> bool {
    exists|v: int|
        0 <= v < nodes.len() && has_name(nodes[v].kind) && #[trigger] names(nodes, v, c)
}

/// Whether a symbol has the kind of its definition.
pub open spec fn kind_told(nodes: Seq<NodeShown>, v: int, kind: KindShown) -> bool {
    let own = nodes[v].kind;
    &&& own == "function_item"@ ==> kind == KindShown::Known(
        if in_block(nodes, v) {
            SymbolKind::Method
        } else {
            SymbolKind::Function
        },
    )
    &&& own == "function_signature_item"@ ==> kind == KindShown::Known(SymbolKind::Method)
    &&& own == "mod_item"@ ==> kind == KindShown::Known(SymbolKind::Module)
    &&& own == "struct_item"@ ==> kind == KindShown::Known(SymbolKind::Struct)
    &&& own == "enum_item"@ ==> kind == KindShown::Known(SymbolKind::Enum)
    &&& own == "trait_item"@ ==> kind == KindShown::Known(SymbolKind::Trait)
    &&& own == "type_item"@ ==> kind == KindShown::Known(SymbolKind::TypeAlias)
    &&& own == "associated_type"@ ==> kind == KindShown::Known(SymbolKind::TypeAlias)
    &&& own == "const_item"@ ==> kind == KindShown::Known(SymbolKind::Constant)
    &&& own == "static_item"@ ==> kind == KindShown::Known(SymbolKind::Static)
    &&& own == "macro_definition"@ ==> kind == KindShown::Known(SymbolKind::Macro)
    &&& own == "impl_item"@ ==> kind == KindShown::Other("impl"@)
}

/// Whether a symbol has the name of its definition; that of an implementation is all
/// before its body, with single blanks between words.
pub open spec fn name_told(given: Given, v: int, name: Seq<char>) -> bool {
    let nodes = given.nodes;
    if nodes[v].kind == "impl_item"@ {
        exists|stop: int|
            #![trigger text::between_bytes(given.source, nodes[v].start_byte as int, stop)]
            {
                &&& match text::between_bytes(given.source, nodes[v].start_byte as int, stop) {
                    Some(header) => name == wrap::with_blanks(wrap::words(header)),
                    None => false,
                }
                &&& if tree::no_child(nodes, v, tree::with_field("body"@)) {
                    stop == nodes[v].end_byte
                } else {
                    exists|b: int| #[trigger]
                        tree::first_child(nodes, v, b, tree::with_field("body"@)) && stop
                            == nodes[b].start_byte
                }
            }
    } else {
        exists|c: int| #[trigger]
            names(nodes, v, c) && syntax::node_text(nodes[c], given.source) == Some(name)
    }
}

/// The range of a node: lines count from one, columns from zero.
pub open spec fn spans(node: NodeShown, span: ((u32, u32), (u32, u32))) -> bool {
    &&& span.0.0 == node.start_row + 1
    &&& span.0.1 == node.start_column
    &&& span.1.0 == node.end_row + 1
    &&& span.1.1 == node.end_column
}

/// Whether a symbol tells the definition at its place.
#[verifier::opaque]
pub open spec fn symbol_told(
    given: Given,
    symbols: Seq<SymbolShown>,
    places: Seq<int>,
    k: int,
) -> bool {
    let symbol = symbols[k];
    let v = places[k];
    &&& symbol.local_id.0 == k
    &&& spans(given.nodes[v], symbol.span)
    &&& kind_told(given.nodes, v, symbol.kind)
    &&& name_told(given, v, symbol.name)
    &&& enclosed(given.nodes, places, symbol.parent_id, v)
    &&& symbol.parent_id is Some ==> (symbol.parent_id->0).0 < k
    &&& symbol.qualified_name == prefix(given, symbols, symbol.parent_id) + "::"@ + symbol.name
}

/// The qualified name of a definition, or that of the file's module.
pub open spec fn prefix(
    given: Given,
    symbols: Seq<SymbolShown>,
    id: Option<ParsedSymbolId>,
) -> Seq<char> {
    match id {
        None => given.module,
        Some(id) => symbols[id.0 as int].qualified_name,
    }
}

/// Whether a child is what a call calls: the child with that role, or else the first
/// named one.
pub open spec fn called(nodes: Seq<NodeShown>, v: int, c: int) -> bool {
    ||| tree::first_child(nodes, v, c, tree::with_field("function"@))
    ||| tree::no_child(nodes, v, tree::with_field("function"@)) && tree::first_child(
        nodes,
        v,
        c,
        tree::is_named(),
    )
}

/// Whether a name is that of what the call at a node calls.
pub open spec fn calls_name(given: Given, v: int, name: Seq<char>) -> bool {
    exists|c: int, written: Seq<char>| #[trigger]
        called(given.nodes, v, c) && syntax::node_text(given.nodes[c], given.source) == Some(
            written,
        ) && name == #[trigger] text::trim(written)
}

#[verifier::opaque]
spec fn call_found(given: Given, places: Seq<int>, call: CallShown, v: int) -> bool {
    &&& spans(given.nodes[v], call.span)
    &&& enclosed(given.nodes, places, call.caller_id, v)
    &&& call.confidence is None
    &&& call.target matches TargetShown::Unresolved(name) && calls_name(given, v, name)
}

#[verifier::opaque]
spec fn reference_found(
    given: Given,
    places: Seq<int>,
    reference: ReferenceShown,
    v: int,
) -> bool {
    &&& spans(given.nodes[v], reference.span)
    &&& enclosed(given.nodes, places, reference.source_id, v)
    &&& reference.kind == ReferenceKind::Read
    &&& reference.target matches TargetShown::Unresolved(name) && syntax::node_text(
        given.nodes[v],
        given.source,
    ) == Some(name)
}

/// Whether nodes are the attributes directly before a place among the children of a
/// node: named ones, with nothing that counts in between.
pub open spec fn attributes_before(
    nodes: Seq<NodeShown>,
    u: int,
    at: int,
    run: Seq<int>,
) -> bool {
    &&& forall|i: int, j: int| 0 <= i < j < run.len() ==> #[trigger] run[i] < #[trigger] run[j]
    &&& forall|a: int| #[trigger]
        run.contains(a) <==> {
            &&& tree::child_of(nodes, u, a)
            &&& a < at
            &&& nodes[a].named
            &&& nodes[a].kind == "attribute_item"@
            &&& forall|w: int| #[trigger]
                tree::child_of(nodes, u, w) && a < w < at ==> !counts(nodes, w)
        }
}

/// Whether texts are those of nodes, one for each.
pub open spec fn texts_of(given: Given, run: Seq<int>, texts: Seq<Seq<char>>) -> bool {
    &&& texts.len() == run.len()
    &&& forall|i: int|
        0 <= i < run.len() ==> syntax::node_text(given.nodes[#[trigger] run[i]], given.source)
            == Some(texts[i])
}

/// Whether texts are those of the attributes of the children of a node from a place on.
#[verifier::opaque]
spec fn pending_told(given: Given, u: int, at: int, texts: Seq<Seq<char>>) -> bool {
    exists|run: Seq<int>| #[trigger]
        attributes_before(given.nodes, u, at, run) && texts_of(given, run, texts)
}

/// Whether texts are those of the attributes of a node.
#[verifier::opaque]
pub open spec fn annotated(given: Given, v: int, texts: Seq<Seq<char>>) -> bool {
    if v == 0 {
        texts.len() == 0
    } else {
        exists|u: int, run: Seq<int>|
            {
                &&& 0 <= u < given.nodes.len()
                &&& tree::child_of(given.nodes, u, v)
                &&& #[trigger] attributes_before(given.nodes, u, v, run)
                &&& texts_of(given, run, texts)
            }
    }
}

/// Whether an attribute stands in a text without blanks, by itself or as the last part
/// of a path.
pub open spec fn attributed(compact: Seq<char>, name: Seq<char>) -> bool {
    ||| text::contains(compact, "#["@ + name + "]"@)
    ||| text::contains(compact, "::"@ + name + "]"@)
    ||| text::contains(compact, "::"@ + name + "("@)
}

/// Whether a function with a text of attributes and words before its name is an entry
/// point of a kind: a benchmark, or else a test, or else, if it is no method and is
/// named or attributed as the main function, an executable.
pub open spec fn enters(
    symbol: SymbolShown,
    compact: Seq<char>,
    kind: Option<EntryPointKind>,
) -> bool {
    let bench = attributed(compact, "bench"@);
    let test = attributed(compact, "test"@);
    let main = symbol.kind == KindShown::Known(SymbolKind::Function) && (symbol.name == "main"@
        || attributed(compact, "main"@));
    match kind {
        Some(EntryPointKind::Benchmark) => bench,
        Some(EntryPointKind::Test) => !bench && test,
        Some(EntryPointKind::Executable) => !bench && !test && main,
        Some(_) => false,
        None => !bench && !test && !main,
    }
}

/// Whether a text is what stands before the name of a function, its attributes with it,
/// without blanks.
pub open spec fn heads(given: Given, v: int, compact: Seq<char>) -> bool {
    exists|texts: Seq<Seq<char>>, c: int, words: Seq<char>|
        {
            &&& #[trigger] annotated(given, v, texts)
            &&& #[trigger] names(given.nodes, v, c)
            &&& text::between_bytes(
                given.source,
                given.nodes[v].start_byte as int,
                given.nodes[c].start_byte as int,
            ) == Some(words)
            &&& compact == #[trigger] wrap::without_blanks(
                lang_rust::concatenated(texts) + words,
            )
        }
}

pub open spec fn is_function(symbol: SymbolShown) -> bool {
    symbol.kind == KindShown::Known(SymbolKind::Function) || symbol.kind == KindShown::Known(
        SymbolKind::Method,
    )
}

/// Whether an entry point tells the function at `k`.
#[verifier::opaque]
pub open spec fn entry_told(
    given: Given,
    symbols: Seq<SymbolShown>,
    places: Seq<int>,
    entry: EntryShown,
    k: int,
) -> bool {
    &&& is_function(symbols[k])
    &&& entry.label == symbols[k].name
    &&& entry.symbol_id == Some(ParsedSymbolId(k as u32))
    &&& entry.span == symbols[k].span
    &&& exists|compact: Seq<char>|
        heads(given, places[k], compact) && #[trigger] enters(
            symbols[k],
            compact,
            Some(entry.kind),
        )
}

/// Whether the function at `k` is no entry point.
#[verifier::opaque]
pub open spec fn not_entered(
    given: Given,
    symbols: Seq<SymbolShown>,
    places: Seq<int>,
    k: int,
) -> bool {
    exists|compact: Seq<char>|
        heads(given, places[k], compact) && #[trigger] enters(symbols[k], compact, None)
}

pub open spec fn is_library(entry: EntryShown) -> bool {
    entry.kind == EntryPointKind::Library && entry.label == "library crate"@ && entry.symbol_id is None
}

/// Whether an entry point is that of a library or of a function.
#[verifier::opaque]
pub open spec fn entry_placed(
    given: Given,
    symbols: Seq<SymbolShown>,
    places: Seq<int>,
    entry: EntryShown,
) -> bool {
    is_library(entry) || exists|k: int|
        0 <= k < symbols.len() && #[trigger] entry_told(given, symbols, places, entry, k)
}

/// Whether the function at `k` has its entry point, or is none.
#[verifier::opaque]
pub open spec fn function_placed(
    given: Given,
    symbols: Seq<SymbolShown>,
    places: Seq<int>,
    entries: Seq<EntryShown>,
    k: int,
) -> bool {
    ||| !is_function(symbols[k])
    ||| not_entered(given, symbols, places, k)
    ||| exists|e: int|
        0 <= e < entries.len() && entry_told(given, symbols, places, #[trigger] entries[e], k)
}

spec fn entries_placed(
    given: Given,
    symbols: Seq<SymbolShown>,
    places: Seq<int>,
    entries: Seq<EntryShown>,
) -> bool {
    &&& forall|e: int|
        0 <= e < entries.len() ==> entry_placed(given, symbols, places, #[trigger] entries[e])
    &&& forall|k: int|
        0 <= k < symbols.len() ==> #[trigger] function_placed(given, symbols, places, entries, k)
}

/// The nodes of the records of a file.
pub struct Reading {
    pub symbols: Seq<int>,
    pub imports: Seq<int>,
    pub references: Seq<int>,
    pub calls: Seq<int>,
}

pub open spec fn definition_at(nodes: Seq<NodeShown>) -> spec_fn(int) -> bool {
    |v: int| reached(nodes, v) && defines(nodes[v].kind)
}

pub open spec fn import_at(nodes: Seq<NodeShown>) -> spec_fn(int) -> bool {
    |v: int| reached(nodes, v) && nodes[v].kind == "use_declaration"@
}

pub open spec fn call_at(nodes: Seq<NodeShown>) -> spec_fn(int) -> bool {
    |v: int| reached(nodes, v) && nodes[v].kind == "call_expression"@
}

pub open spec fn reference_at(nodes: Seq<NodeShown>) -> spec_fn(int) -> bool {
    |v: int| reached(nodes, v) && nodes[v].kind == "identifier"@ && !is_name(nodes, v)
}

/// Whether a child can be what an import imports.
pub open spec fn importable() -> spec_fn(NodeShown) -> bool {
    |node: NodeShown|
        node.named && node.kind != "visibility_modifier"@ && node.kind != "attribute_item"@
}

/// Whether a child is what an import imports: the child with that role, or else the last
/// one that can be.
pub open spec fn imported(nodes: Seq<NodeShown>, v: int, c: int) -> bool {
    ||| tree::first_child(nodes, v, c, tree::with_field("argument"@))
    ||| {
        &&& tree::no_child(nodes, v, tree::with_field("argument"@))
        &&& tree::child_of(nodes, v, c)
        &&& importable()(nodes[c])
        &&& forall|d: int| #[trigger]
            tree::child_of(nodes, v, d) && d > c ==> !importable()(nodes[d])
    }
}

/// Whether a target and an alias are those of an import as it is written: what stands
/// before and behind the last ` as `. A list in braces is kept whole.
pub open spec fn parted(written: Seq<char>, target: Seq<char>, alias: Option<Seq<char>>) -> bool {
    let mark = " as "@;
    match alias {
        None => target == written && (text::has_char(written, '{') || forall|i: int|
            !#[trigger] text::occurs_at(written, mark, i)),
        Some(alias) => !text::has_char(written, '{') && exists|i: int|
            {
                &&& #[trigger] text::occurs_at(written, mark, i)
                &&& forall|j: int| #[trigger] text::occurs_at(written, mark, j) ==> j <= i
                &&& target == text::trim(written.take(i))
                &&& alias == text::trim(written.skip(i + 4))
            },
    }
}

/// Whether an import tells the declaration at a node.
#[verifier::opaque]
pub open spec fn import_told(given: Given, import: ImportShown, v: int) -> bool {
    &&& spans(given.nodes[v], import.span)
    &&& exists|c: int, written: Seq<char>| #[trigger]
        imported(given.nodes, v, c) && syntax::node_text(given.nodes[c], given.source) == Some(
            written,
        ) && parted(#[trigger] text::trim(written), import.target, import.alias)
}

/// Whether records tell the nodes before `to`.
spec fn told(given: Given, found: Found, reading: Reading, to: int) -> bool {
    let nodes = given.nodes;
    &&& reading.symbols.len() == found.symbols.len() <= u32::MAX + 1
    &&& reading.imports.len() == found.imports.len()
    &&& reading.references.len() == found.references.len()
    &&& reading.calls.len() == found.calls.len()
    &&& entries_placed(given, found.symbols, reading.symbols, found.entry_points)
    &&& tree::lists(reading.symbols, definition_at(nodes), to)
    &&& tree::lists(reading.imports, import_at(nodes), to)
    &&& tree::lists(reading.references, reference_at(nodes), to)
    &&& tree::lists(reading.calls, call_at(nodes), to)
    &&& forall|k: int|
        0 <= k < found.symbols.len() ==> #[trigger] symbol_told(
            given,
            found.symbols,
            reading.symbols,
            k,
        )
    &&& forall|k: int|
        0 <= k < found.imports.len() ==> import_told(
            given,
            #[trigger] found.imports[k],
            reading.imports[k],
        )
    &&& forall|k: int|
        0 <= k < found.references.len() ==> reference_found(
            given,
            reading.symbols,
            #[trigger] found.references[k],
            reading.references[k],
        )
    &&& forall|k: int|
        0 <= k < found.calls.len() ==> call_found(
            given,
            reading.symbols,
            #[trigger] found.calls[k],
            reading.calls[k],
        )
}

/// Whether a list begins with another.
spec fn begins<A>(first: Seq<A>, whole: Seq<A>) -> bool {
    first.len() <= whole.len() && forall|i: int|
        0 <= i < first.len() ==> #[trigger] whole[i] == first[i]
}

/// Whether an ID is that of the innermost definition at or above a node.
spec fn inside(
    nodes: Seq<NodeShown>,
    places: Seq<int>,
    id: Option<ParsedSymbolId>,
    u: int,
) -> bool {
    if defines(nodes[u].kind) {
        id matches Some(id) && id.0 < places.len() && places[id.0 as int] == u
    } else {
        enclosed(nodes, places, id, u)
    }
}

/// The innermost definition around a child.
proof fn lemma_child_enclosed(
    nodes: Seq<NodeShown>,
    places: Seq<int>,
    id: Option<ParsedSymbolId>,
    u: int,
    c: int,
)
    requires
        tree::is_tree(nodes),
        0 <= u < nodes.len(),
        tree::child_of(nodes, u, c),
        inside(nodes, places, id, u),
    ensures
        enclosed(nodes, places, id, c),
{
    tree::lemma_above_child(nodes, u, c);
}

/// Whether a child stands in an implementation or a trait.
proof fn lemma_child_in_block(nodes: Seq<NodeShown>, u: int, c: int)
    requires
        tree::is_tree(nodes),
        0 <= u < nodes.len(),
        tree::child_of(nodes, u, c),
    ensures
        in_block(nodes, c) == lang_rust::impl_below(nodes[u].kind, in_block(nodes, u)),
{
    tree::lemma_above_child(nodes, u, c);
    reveal_strlit("impl_item");
    reveal_strlit("trait_item");
    reveal_strlit("source_file");
    reveal_strlit("mod_item");
    assert("trait_item"@[0] == 't' && "impl_item"@[0] == 'i' && "source_file"@[0] == 's'
        && "mod_item"@[0] == 'm');
    let kind = nodes[u].kind;
    if kind == "impl_item"@ || kind == "trait_item"@ {
        assert(tree::below(nodes, u, c));
        assert forall|w: int| #[trigger] tree::below(nodes, w, c) && u < w implies nodes[w].kind
            != "mod_item"@ && nodes[w].kind != "source_file"@ by {
            assert(w == u || tree::below(nodes, w, u));
        }
    } else if kind == "source_file"@ || kind == "mod_item"@ {
        if in_block(nodes, c) {
            let a = choose|a: int|
                {
                    &&& #[trigger] tree::below(nodes, a, c)
                    &&& nodes[a].kind == "impl_item"@ || nodes[a].kind == "trait_item"@
                    &&& forall|w: int| #[trigger]
                        tree::below(nodes, w, c) && a < w ==> nodes[w].kind != "mod_item"@
                            && nodes[w].kind != "source_file"@
                };
            assert(tree::below(nodes, u, c));
            assert(a == u || tree::below(nodes, a, u));
        }
    } else {
        if in_block(nodes, c) {
            let a = choose|a: int|
                {
                    &&& #[trigger] tree::below(nodes, a, c)
                    &&& nodes[a].kind == "impl_item"@ || nodes[a].kind == "trait_item"@
                    &&& forall|w: int| #[trigger]
                        tree::below(nodes, w, c) && a < w ==> nodes[w].kind != "mod_item"@
                            && nodes[w].kind != "source_file"@
                };
            assert(tree::below(nodes, a, u));
            assert forall|w: int| #[trigger] tree::below(nodes, w, u) && a < w implies
                nodes[w].kind != "mod_item"@ && nodes[w].kind != "source_file"@ by {
                assert(tree::below(nodes, w, c));
            }
        }
        if in_block(nodes, u) {
            let a = choose|a: int|
                {
                    &&& #[trigger] tree::below(nodes, a, u)
                    &&& nodes[a].kind == "impl_item"@ || nodes[a].kind == "trait_item"@
                    &&& forall|w: int| #[trigger]
                        tree::below(nodes, w, u) && a < w ==> nodes[w].kind != "mod_item"@
                            && nodes[w].kind != "source_file"@
                };
            assert(tree::below(nodes, a, c));
            assert forall|w: int| #[trigger] tree::below(nodes, w, c) && a < w implies
                nodes[w].kind != "mod_item"@ && nodes[w].kind != "source_file"@ by {
                assert(w == u || tree::below(nodes, w, u));
            }
        }
    }
}

/// Whether a child is reached.
proof fn lemma_child_reached(nodes: Seq<NodeShown>, u: int, c: int)
    requires
        tree::is_tree(nodes),
        0 <= u < nodes.len(),
        tree::child_of(nodes, u, c),
        reached(nodes, u),
        nodes[u].kind != "use_declaration"@,
    ensures
        0 < c < nodes.len(),
        reached(nodes, c) == counts(nodes, c),
{
    tree::lemma_above_child(nodes, u, c);
    tree::lemma_end_inside(nodes, u);
    if counts(nodes, c) {
        assert forall|w: int| #[trigger] tree::below(nodes, w, c) implies counts(nodes, w)
            && nodes[w].kind != "use_declaration"@ by {
            assert(w == u || tree::below(nodes, w, u));
        }
    }
}

/// Nothing is reached below a node that does not count, nor inside an import.
proof fn lemma_unreached(nodes: Seq<NodeShown>, at: int)
    requires
        tree::is_tree(nodes),
        0 <= at < nodes.len(),
        !counts(nodes, at) || nodes[at].kind == "use_declaration"@,
    ensures
        forall|v: int| at < v < tree::end_of(nodes, at) ==> !#[trigger] reached(nodes, v),
        !counts(nodes, at) ==> !reached(nodes, at),
{
    assert forall|v: int| at < v < tree::end_of(nodes, at) implies !#[trigger] reached(
        nodes,
        v,
    ) by {
        assert(tree::below(nodes, at, v));
    }
}

proof fn lemma_identifier_child(nodes: Seq<NodeShown>, u: int, at: int)
    requires
        tree::is_tree(nodes),
        0 <= u < nodes.len(),
        tree::at_child(nodes, u, at),
        forall|d: int| #[trigger]
            tree::child_of(nodes, u, d) && d < at ==> !is_identifier()(nodes[d]),
    ensures
        match lang_rust::identifier_sibling(nodes, at, tree::end_of(nodes, u)) {
            Some(c) => tree::first_child(nodes, u, c, is_identifier()),
            None => tree::no_child(nodes, u, is_identifier()),
        },
    decreases tree::end_of(nodes, u) - at,
{
    let stop = tree::end_of(nodes, u);
    if at < stop {
        tree::lemma_next_child(nodes, u, at);
        if !is_identifier()(nodes[at]) {
            let next = tree::end_of(nodes, at);
            assert forall|d: int| #[trigger] tree::child_of(nodes, u, d) && d < next implies
                !is_identifier()(nodes[d]) by {}
            lemma_identifier_child(nodes, u, next);
        }
    }
}

/// The name of a definition.
proof fn lemma_name_node(nodes: Seq<NodeShown>, u: int)
    requires
        tree::is_tree(nodes),
        0 <= u < nodes.len(),
    ensures
        forall|c: int| #[trigger]
            names(nodes, u, c) <==> lang_rust::name_node(nodes, u, tree::end_of(nodes, u)) == Some(
                c,
            ),
{
    tree::lemma_end_inside(nodes, u);
    tree::lemma_child_with_field(nodes, u, "name"@);
    if u + 1 < tree::end_of(nodes, u) {
        tree::lemma_eldest(nodes, u);
    }
    lemma_identifier_child(nodes, u, u + 1);
}

/// A node has one parent.
proof fn lemma_one_parent(nodes: Seq<NodeShown>, u: int, v: int, c: int)
    requires
        tree::is_tree(nodes),
        0 <= u < nodes.len(),
        0 <= v < nodes.len(),
        tree::child_of(nodes, u, c),
        tree::child_of(nodes, v, c),
    ensures
        u == v,
{
    tree::lemma_above_child(nodes, u, c);
    tree::lemma_above_child(nodes, v, c);
    assert(tree::below(nodes, u, c) && tree::below(nodes, v, c));
}

/// What the children of a node have for a name.
proof fn lemma_child_name(nodes: Seq<NodeShown>, u: int, c: int)
    requires
        tree::is_tree(nodes),
        0 <= u < nodes.len(),
        tree::child_of(nodes, u, c),
    ensures
        is_name(nodes, c) == (has_name(nodes[u].kind) && lang_rust::name_node(
            nodes,
            u,
            tree::end_of(nodes, u),
        ) == Some(c)),
{
    lemma_name_node(nodes, u);
    if is_name(nodes, c) {
        let v = choose|v: int|
            0 <= v < nodes.len() && has_name(nodes[v].kind) && #[trigger] names(nodes, v, c);
        lemma_one_parent(nodes, u, v, c);
    }
    if has_name(nodes[u].kind) && lang_rust::name_node(nodes, u, tree::end_of(nodes, u)) == Some(
        c,
    ) {
        assert(names(nodes, u, c));
    }
}

/// The kinds of nodes that are told apart.
proof fn lemma_kinds_differ()
    ensures
        !defines("call_expression"@),
        !defines("identifier"@),
        !defines("use_declaration"@),
        !defines("attribute_item"@),
        !has_name("impl_item"@),
        "call_expression"@ != "use_declaration"@,
        "call_expression"@ != "attribute_item"@,
        "call_expression"@ != "identifier"@,
        "identifier"@ != "use_declaration"@,
        "identifier"@ != "attribute_item"@,
        "use_declaration"@ != "attribute_item"@,
{
    reveal_strlit("call_expression");
    reveal_strlit("identifier");
    reveal_strlit("use_declaration");
    reveal_strlit("attribute_item");
    reveal_strlit("impl_item");
    reveal_strlit("mod_item");
    reveal_strlit("function_item");
    reveal_strlit("function_signature_item");
    reveal_strlit("struct_item");
    reveal_strlit("enum_item");
    reveal_strlit("trait_item");
    reveal_strlit("type_item");
    reveal_strlit("associated_type");
    reveal_strlit("const_item");
    reveal_strlit("static_item");
    reveal_strlit("macro_definition");
    assert("call_expression"@.len() != "impl_item"@.len());
    assert("call_expression"@.len() != "mod_item"@.len());
    assert("call_expression"@.len() != "function_item"@.len());
    assert("call_expression"@.len() != "function_signature_item"@.len());
    assert("call_expression"@.len() != "struct_item"@.len());
    assert("call_expression"@.len() != "enum_item"@.len());
    assert("call_expression"@.len() != "trait_item"@.len());
    assert("call_expression"@.len() != "type_item"@.len());
    assert("call_expression"@[0] != "associated_type"@[0]);
    assert("call_expression"@.len() != "const_item"@.len());
    assert("call_expression"@.len() != "static_item"@.len());
    assert("call_expression"@.len() != "macro_definition"@.len());
    assert("identifier"@.len() != "impl_item"@.len());
    assert("identifier"@.len() != "mod_item"@.len());
    assert("identifier"@.len() != "function_item"@.len());
    assert("identifier"@.len() != "function_signature_item"@.len());
    assert("identifier"@.len() != "struct_item"@.len());
    assert("identifier"@.len() != "enum_item"@.len());
    assert("identifier"@[0] != "trait_item"@[0]);
    assert("identifier"@.len() != "type_item"@.len());
    assert("identifier"@.len() != "associated_type"@.len());
    assert("identifier"@[0] != "const_item"@[0]);
    assert("identifier"@.len() != "static_item"@.len());
    assert("identifier"@.len() != "macro_definition"@.len());
    assert("use_declaration"@.len() != "impl_item"@.len());
    assert("use_declaration"@.len() != "mod_item"@.len());
    assert("use_declaration"@.len() != "function_item"@.len());
    assert("use_declaration"@.len() != "function_signature_item"@.len());
    assert("use_declaration"@.len() != "struct_item"@.len());
    assert("use_declaration"@.len() != "enum_item"@.len());
    assert("use_declaration"@.len() != "trait_item"@.len());
    assert("use_declaration"@.len() != "type_item"@.len());
    assert("use_declaration"@[0] != "associated_type"@[0]);
    assert("use_declaration"@.len() != "const_item"@.len());
    assert("use_declaration"@.len() != "static_item"@.len());
    assert("use_declaration"@.len() != "macro_definition"@.len());
    assert("attribute_item"@.len() != "impl_item"@.len());
    assert("attribute_item"@.len() != "mod_item"@.len());
    assert("attribute_item"@.len() != "function_item"@.len());
    assert("attribute_item"@.len() != "function_signature_item"@.len());
    assert("attribute_item"@.len() != "struct_item"@.len());
    assert("attribute_item"@.len() != "enum_item"@.len());
    assert("attribute_item"@.len() != "trait_item"@.len());
    assert("attribute_item"@.len() != "type_item"@.len());
    assert("attribute_item"@.len() != "associated_type"@.len());
    assert("attribute_item"@.len() != "const_item"@.len());
    assert("attribute_item"@.len() != "static_item"@.len());
    assert("attribute_item"@.len() != "macro_definition"@.len());
    assert("impl_item"@[0] == 'i' && "enum_item"@[0] == 'e' && "type_item"@[0] == 't');
}

/// The kinds of definitions are told apart.
proof fn lemma_definition_kinds(nodes: Seq<NodeShown>, v: int, in_impl: bool)
    requires
        in_impl == in_block(nodes, v),
        nodes[v].kind != "impl_item"@,
    ensures
        lang_rust::defined_kind(nodes[v].kind, in_impl) is Some == has_name(nodes[v].kind),
        lang_rust::defined_kind(nodes[v].kind, in_impl) matches Some(kind) ==> kind_told(
            nodes,
            v,
            KindShown::Known(kind),
        ),
{
    reveal_strlit("mod_item");
    reveal_strlit("function_item");
    reveal_strlit("function_signature_item");
    reveal_strlit("struct_item");
    reveal_strlit("enum_item");
    reveal_strlit("trait_item");
    reveal_strlit("type_item");
    reveal_strlit("associated_type");
    reveal_strlit("const_item");
    reveal_strlit("static_item");
    reveal_strlit("macro_definition");
    reveal_strlit("impl_item");
    assert("mod_item"@.len() != "function_item"@.len());
    assert("mod_item"@.len() != "function_signature_item"@.len());
    assert("mod_item"@.len() != "struct_item"@.len());
    assert("mod_item"@.len() != "enum_item"@.len());
    assert("mod_item"@.len() != "trait_item"@.len());
    assert("mod_item"@.len() != "type_item"@.len());
    assert("mod_item"@.len() != "associated_type"@.len());
    assert("mod_item"@.len() != "const_item"@.len());
    assert("mod_item"@.len() != "static_item"@.len());
    assert("mod_item"@.len() != "macro_definition"@.len());
    assert("mod_item"@.len() != "impl_item"@.len());
    assert("function_item"@.len() != "function_signature_item"@.len());
    assert("function_item"@.len() != "struct_item"@.len());
    assert("function_item"@.len() != "enum_item"@.len());
    assert("function_item"@.len() != "trait_item"@.len());
    assert("function_item"@.len() != "type_item"@.len());
    assert("function_item"@.len() != "associated_type"@.len());
    assert("function_item"@.len() != "const_item"@.len());
    assert("function_item"@.len() != "static_item"@.len());
    assert("function_item"@.len() != "macro_definition"@.len());
    assert("function_item"@.len() != "impl_item"@.len());
    assert("function_signature_item"@.len() != "struct_item"@.len());
    assert("function_signature_item"@.len() != "enum_item"@.len());
    assert("function_signature_item"@.len() != "trait_item"@.len());
    assert("function_signature_item"@.len() != "type_item"@.len());
    assert("function_signature_item"@.len() != "associated_type"@.len());
    assert("function_signature_item"@.len() != "const_item"@.len());
    assert("function_signature_item"@.len() != "static_item"@.len());
    assert("function_signature_item"@.len() != "macro_definition"@.len());
    assert("function_signature_item"@.len() != "impl_item"@.len());
    assert("struct_item"@.len() != "enum_item"@.len());
    assert("struct_item"@.len() != "trait_item"@.len());
    assert("struct_item"@.len() != "type_item"@.len());
    assert("struct_item"@.len() != "associated_type"@.len());
    assert("struct_item"@.len() != "const_item"@.len());
    assert("struct_item"@[2] != "static_item"@[2]);
    assert("struct_item"@.len() != "macro_definition"@.len());
    assert("struct_item"@.len() != "impl_item"@.len());
    assert("enum_item"@.len() != "trait_item"@.len());
    assert("enum_item"@[0] != "type_item"@[0]);
    assert("enum_item"@.len() != "associated_type"@.len());
    assert("enum_item"@.len() != "const_item"@.len());
    assert("enum_item"@.len() != "static_item"@.len());
    assert("enum_item"@.len() != "macro_definition"@.len());
    assert("enum_item"@[0] != "impl_item"@[0]);
    assert("trait_item"@.len() != "type_item"@.len());
    assert("trait_item"@.len() != "associated_type"@.len());
    assert("trait_item"@[0] != "const_item"@[0]);
    assert("trait_item"@.len() != "static_item"@.len());
    assert("trait_item"@.len() != "macro_definition"@.len());
    assert("trait_item"@.len() != "impl_item"@.len());
    assert("type_item"@.len() != "associated_type"@.len());
    assert("type_item"@.len() != "const_item"@.len());
    assert("type_item"@.len() != "static_item"@.len());
    assert("type_item"@.len() != "macro_definition"@.len());
    assert("type_item"@[0] != "impl_item"@[0]);
    assert("associated_type"@.len() != "const_item"@.len());
    assert("associated_type"@.len() != "static_item"@.len());
    assert("associated_type"@.len() != "macro_definition"@.len());
    assert("associated_type"@.len() != "impl_item"@.len());
    assert("const_item"@.len() != "static_item"@.len());
    assert("const_item"@.len() != "macro_definition"@.len());
    assert("const_item"@.len() != "impl_item"@.len());
    assert("static_item"@.len() != "macro_definition"@.len());
    assert("static_item"@.len() != "impl_item"@.len());
    assert("macro_definition"@.len() != "impl_item"@.len());
}

/// The header of an implementation.
proof fn lemma_impl_header(given: Given, at: int)
    requires
        tree::is_tree(given.nodes),
        0 <= at < given.nodes.len(),
        given.nodes[at].kind == "impl_item"@,
    ensures
        lang_rust::impl_header(given, at, tree::end_of(given.nodes, at)) matches Some(header)
            ==> name_told(given, at, wrap::with_blanks(wrap::words(header))),
{
    let nodes = given.nodes;
    tree::lemma_child_with_field(nodes, at, "body"@);
    let stop = match syntax::child_with_field(nodes, at, tree::end_of(nodes, at), "body"@) {
        Some(body) => nodes[body].start_byte as int,
        None => nodes[at].end_byte as int,
    };
    let header = text::between_bytes(given.source, nodes[at].start_byte as int, stop);
    match syntax::child_with_field(nodes, at, tree::end_of(nodes, at), "body"@) {
        Some(body) => {
            assert(tree::first_child(nodes, at, body, tree::with_field("body"@)));
            assert(tree::child_of(nodes, at, body));
        },
        None => {},
    }
}

/// What a node defines.
proof fn lemma_definition_of(given: Given, at: int, in_impl: bool)
    requires
        tree::is_tree(given.nodes),
        0 <= at < given.nodes.len(),
        in_impl == in_block(given.nodes, at),
    ensures
        match lang_rust::definition_of(given, at, tree::end_of(given.nodes, at), in_impl) {
            Err(_) => true,
            Ok(None) => !defines(given.nodes[at].kind),
            Ok(Some(definition)) => {
                &&& defines(given.nodes[at].kind)
                &&& kind_told(given.nodes, at, definition.kind)
                &&& name_told(given, at, definition.name)
                &&& definition.name_node == if has_name(given.nodes[at].kind) {
                    lang_rust::name_node(given.nodes, at, tree::end_of(given.nodes, at))
                } else {
                    None
                }
                &&& has_name(given.nodes[at].kind) == definition.name_node is Some
            },
        },
{
    let nodes = given.nodes;
    if nodes[at].kind == "impl_item"@ {
        lemma_kinds_differ();
        lemma_impl_header(given, at);
        assert(kind_told(nodes, at, KindShown::Other("impl"@))) by {
            assert(!has_name(nodes[at].kind));
        }
    } else {
        lemma_definition_kinds(nodes, at, in_impl);
        lemma_name_node(nodes, at);
        match lang_rust::name_node(nodes, at, tree::end_of(nodes, at)) {
            Some(name) => {
                assert(names(nodes, at, name));
            },
            None => {},
        }
    }
}

/// What is said of symbols stays when another is found.
proof fn lemma_symbols_stay(
    given: Given,
    symbols: Seq<SymbolShown>,
    places: Seq<int>,
    symbol: SymbolShown,
    place: int,
)
    requires
        places.len() == symbols.len(),
    ensures
        forall|k: int|
            0 <= k < symbols.len() && symbol_told(given, symbols, places, k)
                ==> #[trigger] symbol_told(given, symbols.push(symbol), places.push(place), k),
{
    let more = symbols.push(symbol);
    let further = places.push(place);
    assert forall|k: int|
        0 <= k < symbols.len() && symbol_told(
            given,
            symbols,
            places,
            k,
        ) implies #[trigger] symbol_told(given, more, further, k) by {
        reveal(symbol_told);
        assert(more[k] == symbols[k] && further[k] == places[k]);
        match symbols[k].parent_id {
            Some(id) => {
                assert(more[id.0 as int] == symbols[id.0 as int]);
                assert(further[id.0 as int] == places[id.0 as int]);
            },
            None => {},
        }
    }
}

proof fn lemma_uses_stay(given: Given, places: Seq<int>, place: int)
    ensures
        forall|call: CallShown, v: int|
            call_found(given, places, call, v) ==> #[trigger] call_found(
                given,
                places.push(place),
                call,
                v,
            ),
        forall|reference: ReferenceShown, v: int|
            reference_found(given, places, reference, v) ==> #[trigger] reference_found(
                given,
                places.push(place),
                reference,
                v,
            ),
{
    let further = places.push(place);
    assert forall|call: CallShown, v: int|
        call_found(given, places, call, v) implies #[trigger] call_found(
        given,
        further,
        call,
        v,
    ) by {
        reveal(call_found);
        match call.caller_id {
            Some(id) => {
                assert(further[id.0 as int] == places[id.0 as int]);
            },
            None => {},
        }
    }
    assert forall|reference: ReferenceShown, v: int|
        reference_found(given, places, reference, v) implies #[trigger] reference_found(
        given,
        further,
        reference,
        v,
    ) by {
        reveal(reference_found);
        match reference.source_id {
            Some(id) => {
                assert(further[id.0 as int] == places[id.0 as int]);
            },
            None => {},
        }
    }
}

/// The places of the records with those of the node at `at`.
spec fn stepped(nodes: Seq<NodeShown>, reading: Reading, at: int) -> Reading {
    Reading {
        symbols: tree::with_place(reading.symbols, definition_at(nodes), at),
        imports: tree::with_place(reading.imports, import_at(nodes), at),
        references: tree::with_place(reading.references, reference_at(nodes), at),
        calls: tree::with_place(reading.calls, call_at(nodes), at),
    }
}

proof fn lemma_stepped(given: Given, found: Found, reading: Reading, at: int)
    requires
        told(given, found, reading, at),
        0 <= at,
    ensures
        ({
            let nodes = given.nodes;
            let next = stepped(nodes, reading, at);
            &&& tree::lists(next.symbols, definition_at(nodes), at + 1)
            &&& tree::lists(next.imports, import_at(nodes), at + 1)
            &&& tree::lists(next.references, reference_at(nodes), at + 1)
            &&& tree::lists(next.calls, call_at(nodes), at + 1)
        }),
{
    let nodes = given.nodes;
    tree::lemma_lists_step(reading.symbols, definition_at(nodes), at);
    tree::lemma_lists_step(reading.imports, import_at(nodes), at);
    tree::lemma_lists_step(reading.references, reference_at(nodes), at);
    tree::lemma_lists_step(reading.calls, call_at(nodes), at);
}

/// A range that can be told.
proof fn lemma_spans(node: NodeShown)
    ensures
        lang_rust::range_of(node) matches Ok(span) ==> spans(node, span),
{
}

/// A definition is told.
proof fn lemma_defined(
    given: Given,
    at: int,
    definition: Definition,
    enclosing: Option<ParsedSymbolId>,
    attributes: Seq<Seq<char>>,
    found: Found,
    reading: Reading,
)
    requires
        tree::is_tree(given.nodes),
        reached(given.nodes, at),
        defines(given.nodes[at].kind),
        told(given, found, reading, at),
        kind_told(given.nodes, at, definition.kind),
        name_told(given, at, definition.name),
        definition.name_node matches Some(name) ==> names(given.nodes, at, name),
        has_name(given.nodes[at].kind) == definition.name_node is Some,
        annotated(given, at, attributes),
        enclosed(given.nodes, reading.symbols, enclosing, at),
        lang_rust::path_of(given.module, found.context) == prefix(
            given,
            found.symbols,
            enclosing,
        ),
    ensures
        found.with_definition(given, at, definition, enclosing, attributes) matches Ok(defined) ==> {
            &&& told(given, defined, stepped(given.nodes, reading, at), at + 1)
            &&& defined.context == found.context.push(definition.name)
            &&& begins(found.symbols, defined.symbols)
            &&& begins(reading.symbols, stepped(given.nodes, reading, at).symbols)
            &&& inside(
                given.nodes,
                stepped(given.nodes, reading, at).symbols,
                Some(ParsedSymbolId(found.symbols.len() as u32)),
                at,
            )
            &&& lang_rust::path_of(given.module, defined.context) == prefix(
                given,
                defined.symbols,
                Some(ParsedSymbolId(found.symbols.len() as u32)),
            )
        },
{
    let nodes = given.nodes;
    let next = stepped(nodes, reading, at);
    match found.with_definition(given, at, definition, enclosing, attributes) {
        Err(_) => {},
        Ok(defined) => {
            lemma_kinds_differ();
            lemma_stepped(given, found, reading, at);
            lemma_spans(nodes[at]);
            let count = found.symbols.len();
            let symbol = defined.symbols.last();
            assert(defined.symbols == found.symbols.push(symbol));
            assert(next.symbols == reading.symbols.push(at));
            assert(next.imports == reading.imports && next.calls == reading.calls
                && next.references == reading.references);
            lemma_symbols_stay(given, found.symbols, reading.symbols, symbol, at);
            lemma_uses_stay(given, reading.symbols, at);
            assert(symbol_told(given, defined.symbols, next.symbols, count as int)) by {
                reveal(symbol_told);
                match enclosing {
                    Some(id) => {
                        assert(next.symbols[id.0 as int] == reading.symbols[id.0 as int]);
                        assert(defined.symbols[id.0 as int] == found.symbols[id.0 as int]);
                    },
                    None => {},
                }
            }
            assert forall|k: int| 0 <= k < defined.symbols.len() implies #[trigger] symbol_told(
                given,
                defined.symbols,
                next.symbols,
                k,
            ) by {
                if k < count {
                    assert(symbol_told(given, found.symbols, reading.symbols, k));
                }
            }
            assert(found.context.push(definition.name).drop_last() =~= found.context);
            lemma_entry_added(given, at, definition, attributes, found, defined, reading.symbols);
        },
    }
}

/// What is said of entry points stays when another symbol is found.
proof fn lemma_entries_stay(
    given: Given,
    symbols: Seq<SymbolShown>,
    places: Seq<int>,
    symbol: SymbolShown,
    place: int,
    entries: Seq<EntryShown>,
    more: Seq<EntryShown>,
)
    requires
        places.len() == symbols.len(),
        entries_placed(given, symbols, places, entries),
        begins(entries, more),
    ensures
        forall|e: int|
            0 <= e < entries.len() ==> entry_placed(
                given,
                symbols.push(symbol),
                places.push(place),
                #[trigger] more[e],
            ),
        forall|k: int|
            0 <= k < symbols.len() ==> #[trigger] function_placed(
                given,
                symbols.push(symbol),
                places.push(place),
                more,
                k,
            ),
{
    let all = symbols.push(symbol);
    let further = places.push(place);
    assert forall|entry: EntryShown, k: int|
        0 <= k < symbols.len() && entry_told(
            given,
            symbols,
            places,
            entry,
            k,
        ) implies #[trigger] entry_told(given, all, further, entry, k) by {
        reveal(entry_told);
        assert(all[k] == symbols[k] && further[k] == places[k]);
    }
    assert forall|e: int| 0 <= e < entries.len() implies entry_placed(
        given,
        all,
        further,
        #[trigger] more[e],
    ) by {
        reveal(entry_placed);
        assert(more[e] == entries[e]);
        assert(entry_placed(given, symbols, places, entries[e]));
        if !is_library(entries[e]) {
            let k = choose|k: int|
                0 <= k < symbols.len() && #[trigger] entry_told(
                    given,
                    symbols,
                    places,
                    entries[e],
                    k,
                );
            assert(entry_told(given, all, further, entries[e], k));
        }
    }
    assert forall|k: int| 0 <= k < symbols.len() implies #[trigger] function_placed(
        given,
        all,
        further,
        more,
        k,
    ) by {
        reveal(function_placed);
        reveal(not_entered);
        assert(function_placed(given, symbols, places, entries, k));
        assert(all[k] == symbols[k] && further[k] == places[k]);
        if is_function(symbols[k]) && !not_entered(given, symbols, places, k) {
            let e = choose|e: int|
                0 <= e < entries.len() && entry_told(
                    given,
                    symbols,
                    places,
                    #[trigger] entries[e],
                    k,
                );
            assert(more[e] == entries[e]);
            assert(entry_told(given, all, further, more[e], k));
        }
    }
}

/// The entry point of a definition is told.
proof fn lemma_entry_added(
    given: Given,
    at: int,
    definition: Definition,
    attributes: Seq<Seq<char>>,
    found: Found,
    defined: Found,
    places: Seq<int>,
)
    requires
        places.len() == found.symbols.len() <= u32::MAX,
        entries_placed(given, found.symbols, places, found.entry_points),
        defined.symbols == found.symbols.push(defined.symbols.last()),
        defined.symbols.last().local_id == ParsedSymbolId(found.symbols.len() as u32),
        defined.symbols.last().name == definition.name,
        defined.symbols.last().kind == definition.kind,
        kind_told(given.nodes, at, definition.kind),
        definition.name_node matches Some(name) ==> names(given.nodes, at, name),
        defines(given.nodes[at].kind),
        has_name(given.nodes[at].kind) == definition.name_node is Some,
        annotated(given, at, attributes),
        lang_rust::with_entry(
            found.entry_points,
            given,
            at,
            definition,
            defined.symbols.last(),
            attributes,
        ) == Ok::<Seq<EntryShown>, Seq<char>>(defined.entry_points),
    ensures
        entries_placed(given, defined.symbols, places.push(at), defined.entry_points),
{
    let symbols = defined.symbols;
    let symbol = symbols.last();
    let further = places.push(at);
    let k = found.symbols.len() as int;
    let before = found.entry_points;
    let after = defined.entry_points;
    assert(symbols[k] == symbol && further[k] == at);
    if !has_name(given.nodes[at].kind) {
        assert(definition.kind == KindShown::Other("impl"@));
        assert(!is_function(symbol));
    }
    if is_function(symbol) {
        let name = definition.name_node->0;
        let own = definition.kind->Known_0;
        let words = text::between_bytes(
            given.source,
            given.nodes[at].start_byte as int,
            given.nodes[name].start_byte as int,
        )->0;
        let compact = wrap::without_blanks(lang_rust::concatenated(attributes) + words);
        assert(names(given.nodes, at, name));
        assert(heads(given, at, compact));
        let kind = lang_rust::entry_kind(compact, own, symbol.name);
        assert(enters(symbol, compact, kind));
        match kind {
            None => {
                assert(not_entered(given, symbols, further, k)) by {
                    reveal(not_entered);
                }
            },
            Some(kind) => {
                let entry = after.last();
                assert(after == before.push(entry));
                assert(entry_told(given, symbols, further, entry, k)) by {
                    reveal(entry_told);
                    assert(enters(symbols[k], compact, Some(entry.kind)));
                }
            },
        }
    }
    lemma_entries_stay(given, found.symbols, places, symbol, at, before, after);
    assert forall|e: int| 0 <= e < after.len() implies entry_placed(
        given,
        symbols,
        further,
        #[trigger] after[e],
    ) by {
        if e >= before.len() {
            reveal(entry_placed);
            assert(entry_told(given, symbols, further, after[e], k));
        }
    }
    assert forall|j: int| 0 <= j < symbols.len() implies #[trigger] function_placed(
        given,
        symbols,
        further,
        after,
        j,
    ) by {
        if j == k {
            reveal(function_placed);
            if is_function(symbol) && !not_entered(given, symbols, further, k) {
                assert(entry_told(given, symbols, further, after[before.len() as int], k));
            }
        }
    }
}

/// The attributes before the next child.
proof fn lemma_pending_on(given: Given, u: int, at: int, pending: Seq<Seq<char>>)
    requires
        tree::is_tree(given.nodes),
        0 <= u < given.nodes.len(),
        tree::child_of(given.nodes, u, at),
        pending_told(given, u, at, pending),
    ensures
        given.nodes[at].named && given.nodes[at].kind == "attribute_item"@ ==> (forall|
            attribute: Seq<char>,
        | #[trigger]
            syntax::node_text(given.nodes[at], given.source) == Some(attribute) ==> pending_told(
                given,
                u,
                tree::end_of(given.nodes, at),
                pending.push(attribute),
            )),
        !counts(given.nodes, at) && !(given.nodes[at].named && given.nodes[at].kind
            == "attribute_item"@) ==> pending_told(
            given,
            u,
            tree::end_of(given.nodes, at),
            pending,
        ),
        counts(given.nodes, at) ==> pending_told(
            given,
            u,
            tree::end_of(given.nodes, at),
            Seq::empty(),
        ),
{
    reveal(pending_told);
    let nodes = given.nodes;
    let after = tree::end_of(nodes, at);
    tree::lemma_next_child(nodes, u, at);
    let run = choose|run: Seq<int>| #[trigger]
        attributes_before(nodes, u, at, run) && texts_of(given, run, pending);
    let own = nodes[at].named && nodes[at].kind == "attribute_item"@;
    if own {
        let more = run.push(at);
        assert(!counts(nodes, at));
        assert(attributes_before(nodes, u, after, more)) by {
            lemma_run_grows(nodes, u, at, run);
        }
        assert forall|attribute: Seq<char>| #[trigger]
            syntax::node_text(nodes[at], given.source) == Some(attribute) implies pending_told(
            given,
            u,
            after,
            pending.push(attribute),
        ) by {
            let texts = pending.push(attribute);
            assert forall|i: int| 0 <= i < more.len() implies syntax::node_text(
                nodes[#[trigger] more[i]],
                given.source,
            ) == Some(texts[i]) by {
                if i < run.len() {
                    assert(more[i] == run[i]);
                }
            }
            assert(texts_of(given, more, texts));
        }
    } else if !counts(nodes, at) {
        assert(attributes_before(nodes, u, after, run)) by {
            assert forall|a: int| #[trigger] run.contains(a) <==> {
                &&& tree::child_of(nodes, u, a)
                &&& a < after
                &&& nodes[a].named
                &&& nodes[a].kind == "attribute_item"@
                &&& forall|w: int| #[trigger]
                    tree::child_of(nodes, u, w) && a < w < after ==> !counts(nodes, w)
            } by {
                if run.contains(a) {
                    assert forall|w: int| #[trigger]
                        tree::child_of(nodes, u, w) && a < w < after implies !counts(
                        nodes,
                        w,
                    ) by {
                        assert(w <= at);
                    }
                }
            }
        }
    } else {
        let none = Seq::<int>::empty();
        assert(attributes_before(nodes, u, after, none)) by {
            assert forall|a: int| !({
                &&& tree::child_of(nodes, u, a)
                &&& a < after
                &&& nodes[a].named
                &&& nodes[a].kind == "attribute_item"@
                &&& forall|w: int| #[trigger]
                    tree::child_of(nodes, u, w) && a < w < after ==> !counts(nodes, w)
            }) by {
                if tree::child_of(nodes, u, a) && a < after && nodes[a].named && nodes[a].kind
                    == "attribute_item"@ {
                    assert(a < at);
                    assert(tree::child_of(nodes, u, at));
                }
            }
        }
        assert(texts_of(given, none, Seq::empty()));
    }
}

proof fn lemma_run_grows(nodes: Seq<NodeShown>, u: int, at: int, run: Seq<int>)
    requires
        tree::is_tree(nodes),
        0 <= u < nodes.len(),
        tree::child_of(nodes, u, at),
        attributes_before(nodes, u, at, run),
        nodes[at].named,
        nodes[at].kind == "attribute_item"@,
    ensures
        attributes_before(nodes, u, tree::end_of(nodes, at), run.push(at)),
{
    let after = tree::end_of(nodes, at);
    let more = run.push(at);
    tree::lemma_next_child(nodes, u, at);
    assert forall|i: int, j: int| 0 <= i < j < more.len() implies #[trigger] more[i]
        < #[trigger] more[j] by {
        assert(more[i] == run[i]);
        assert(run.contains(run[i]));
        if j < run.len() {
            assert(more[j] == run[j]);
        }
    }
    assert forall|a: int| #[trigger] more.contains(a) <==> {
        &&& tree::child_of(nodes, u, a)
        &&& a < after
        &&& nodes[a].named
        &&& nodes[a].kind == "attribute_item"@
        &&& forall|w: int| #[trigger]
            tree::child_of(nodes, u, w) && a < w < after ==> !counts(nodes, w)
    } by {
        if more.contains(a) {
            let i = choose|i: int| 0 <= i < more.len() && more[i] == a;
            if i < run.len() {
                assert(run[i] == a);
                assert(run.contains(a));
            }
            assert forall|w: int| #[trigger]
                tree::child_of(nodes, u, w) && a < w < after implies !counts(nodes, w) by {
                assert(w <= at);
            }
        }
        if tree::child_of(nodes, u, a) && a < after && nodes[a].named && nodes[a].kind
            == "attribute_item"@ && (forall|w: int| #[trigger]
            tree::child_of(nodes, u, w) && a < w < after ==> !counts(nodes, w)) {
            if a == at {
                assert(more[run.len() as int] == a);
            } else {
                assert(a < at);
                assert(run.contains(a));
                let i = choose|i: int| 0 <= i < run.len() && run[i] == a;
                assert(more[i] == a);
            }
        }
    }
}

/// No attributes stand before the first child.
proof fn lemma_pending_start(given: Given, u: int)
    requires
        tree::is_tree(given.nodes),
        0 <= u < given.nodes.len(),
    ensures
        pending_told(given, u, u + 1, Seq::empty()),
{
    reveal(pending_told);
    let none = Seq::<int>::empty();
    assert(attributes_before(given.nodes, u, u + 1, none));
    assert(texts_of(given, none, Seq::empty()));
}

/// The attributes of a child.
proof fn lemma_annotated(given: Given, u: int, at: int, pending: Seq<Seq<char>>)
    requires
        0 <= u < given.nodes.len(),
        tree::child_of(given.nodes, u, at),
        pending_told(given, u, at, pending),
    ensures
        annotated(given, at, pending),
{
    reveal(pending_told);
    reveal(annotated);
}

/// A call, a reference or neither is told.
proof fn lemma_used(
    given: Given,
    at: int,
    enclosing: Option<ParsedSymbolId>,
    name: bool,
    found: Found,
    reading: Reading,
)
    requires
        tree::is_tree(given.nodes),
        reached(given.nodes, at),
        !defines(given.nodes[at].kind),
        given.nodes[at].kind != "use_declaration"@,
        name == is_name(given.nodes, at),
        told(given, found, reading, at),
        enclosed(given.nodes, reading.symbols, enclosing, at),
    ensures
        found.with_use(
            given,
            at,
            tree::end_of(given.nodes, at),
            enclosing,
            name,
        ) matches Ok(used) ==> {
            &&& told(given, used, stepped(given.nodes, reading, at), at + 1)
            &&& used.symbols == found.symbols
            &&& used.context == found.context
            &&& stepped(given.nodes, reading, at).symbols == reading.symbols
        },
{
    let nodes = given.nodes;
    let stop = tree::end_of(nodes, at);
    let next = stepped(nodes, reading, at);
    lemma_kinds_differ();
    lemma_stepped(given, found, reading, at);
    lemma_spans(nodes[at]);
    tree::lemma_child_with_field(nodes, at, "function"@);
    tree::lemma_first_named_child(nodes, at);
    match found.with_use(given, at, stop, enclosing, name) {
        Err(_) => {},
        Ok(used) => {
            if nodes[at].kind == "call_expression"@ {
                let call = used.calls.last();
                let function = match syntax::child_with_field(nodes, at, stop, "function"@) {
                    Some(child) => Some(child),
                    None => syntax::named_sibling(nodes, at + 1, stop),
                };
                assert(used.calls == found.calls.push(call));
                assert(next.calls == reading.calls.push(at));
                assert(next.references == reading.references);
                let c = function->0;
                assert(called(nodes, at, c));
                let written = syntax::node_text(nodes[c], given.source)->0;
                assert(calls_name(given, at, text::trim(written)));
                assert(call_found(given, next.symbols, call, at)) by {
                    reveal(call_found);
                }
            } else if nodes[at].kind == "identifier"@ && !name {
                let reference = used.references.last();
                assert(used.references == found.references.push(reference));
                assert(next.references == reading.references.push(at));
                assert(next.calls == reading.calls);
                assert(reference_found(given, next.symbols, reference, at)) by {
                    reveal(reference_found);
                }
            } else {
                assert(next.references == reading.references && next.calls == reading.calls);
            }
        },
    }
}

/// The end of a list of occurrences.
proof fn lemma_last_occurrence(s: Seq<char>, part: Seq<char>, at: int)
    requires
        -1 <= at,
    ensures
        match text::last_occurrence(s, part, at) {
            Some(i) => text::occurs_at(s, part, i) && i <= at && forall|j: int| #[trigger]
                text::occurs_at(s, part, j) && j <= at ==> j <= i,
            None => forall|j: int| #[trigger] text::occurs_at(s, part, j) ==> j > at,
        },
    decreases at + 1,
{
    if at >= 0 && !text::occurs_at(s, part, at) {
        lemma_last_occurrence(s, part, at - 1);
    }
}

proof fn lemma_import_parts(written: Seq<char>)
    ensures
        parted(
            written,
            lang_rust::import_parts(written).0,
            lang_rust::import_parts(written).1,
        ),
{
    reveal_strlit(" as ");
    lemma_last_occurrence(written, " as "@, written.len() as int);
    if !text::has_char(written, '{') {
        match text::last_occurrence(written, " as "@, written.len() as int) {
            None => {},
            Some(i) => {
                assert(text::occurs_at(written, " as "@, i));
                assert forall|j: int| #[trigger] text::occurs_at(written, " as "@, j) implies j
                    <= i by {}
            },
        }
    }
}

proof fn lemma_import_child(nodes: Seq<NodeShown>, u: int, at: int, last: Option<int>)
    requires
        tree::is_tree(nodes),
        0 <= u < nodes.len(),
        tree::at_child(nodes, u, at),
        match last {
            Some(c) => tree::child_of(nodes, u, c) && c < at && importable()(nodes[c]) && forall|
                d: int,
            | #[trigger]
                tree::child_of(nodes, u, d) && c < d < at ==> !importable()(nodes[d]),
            None => forall|d: int| #[trigger]
                tree::child_of(nodes, u, d) && d < at ==> !importable()(nodes[d]),
        },
    ensures
        match lang_rust::import_sibling(nodes, at, tree::end_of(nodes, u), last) {
            Some(c) => tree::child_of(nodes, u, c) && importable()(nodes[c]) && forall|d: int|
             #[trigger]
                tree::child_of(nodes, u, d) && c < d ==> !importable()(nodes[d]),
            None => true,
        },
    decreases tree::end_of(nodes, u) - at,
{
    let stop = tree::end_of(nodes, u);
    if at < stop {
        tree::lemma_next_child(nodes, u, at);
        let more = if importable()(nodes[at]) {
            Some(at)
        } else {
            last
        };
        lemma_import_child(nodes, u, tree::end_of(nodes, at), more);
    }
}

/// An import is told.
proof fn lemma_imported(given: Given, at: int, found: Found, reading: Reading)
    requires
        tree::is_tree(given.nodes),
        reached(given.nodes, at),
        given.nodes[at].kind == "use_declaration"@,
        told(given, found, reading, at),
    ensures
        found.with_import(given, at, tree::end_of(given.nodes, at)) matches Ok(with) ==> {
            &&& told(
                given,
                with,
                stepped(given.nodes, reading, at),
                tree::end_of(given.nodes, at),
            )
            &&& with.symbols == found.symbols
            &&& with.context == found.context
            &&& stepped(given.nodes, reading, at).symbols == reading.symbols
        },
{
    let nodes = given.nodes;
    let stop = tree::end_of(nodes, at);
    let next = stepped(nodes, reading, at);
    lemma_kinds_differ();
    lemma_stepped(given, found, reading, at);
    lemma_spans(nodes[at]);
    tree::lemma_end_inside(nodes, at);
    tree::lemma_child_with_field(nodes, at, "argument"@);
    if at + 1 < stop {
        tree::lemma_eldest(nodes, at);
    }
    lemma_import_child(nodes, at, at + 1, None);
    match found.with_import(given, at, stop) {
        Err(_) => {},
        Ok(with) => {
            let import = with.imports.last();
            assert(with.imports == found.imports.push(import));
            assert(next.imports == reading.imports.push(at));
            assert(next.references == reading.references && next.calls == reading.calls
                && next.symbols == reading.symbols);
            let argument = match syntax::child_with_field(nodes, at, stop, "argument"@) {
                Some(child) => Some(child),
                None => lang_rust::import_sibling(nodes, at + 1, stop, None),
            };
            let c = argument->0;
            assert(imported(nodes, at, c));
            let written = syntax::node_text(nodes[c], given.source)->0;
            lemma_import_parts(text::trim(written));
            assert(import_told(given, import, at)) by {
                reveal(import_told);
            }
            lemma_unreached(nodes, at);
            tree::lemma_lists_skip(next.symbols, definition_at(nodes), at + 1, stop);
            tree::lemma_lists_skip(next.imports, import_at(nodes), at + 1, stop);
            tree::lemma_lists_skip(next.references, reference_at(nodes), at + 1, stop);
            tree::lemma_lists_skip(next.calls, call_at(nodes), at + 1, stop);
        },
    }
}

/// Nothing is told of what does not count.
proof fn lemma_skipped(given: Given, at: int, found: Found, reading: Reading)
    requires
        tree::is_tree(given.nodes),
        0 <= at < given.nodes.len(),
        !counts(given.nodes, at),
        told(given, found, reading, at),
    ensures
        told(given, found, reading, tree::end_of(given.nodes, at)),
{
    let nodes = given.nodes;
    let stop = tree::end_of(nodes, at);
    lemma_unreached(nodes, at);
    tree::lemma_end_inside(nodes, at);
    assert forall|v: int| at <= v < stop implies !#[trigger] reached(nodes, v) by {}
    tree::lemma_lists_skip(reading.symbols, definition_at(nodes), at, stop);
    tree::lemma_lists_skip(reading.imports, import_at(nodes), at, stop);
    tree::lemma_lists_skip(reading.references, reference_at(nodes), at, stop);
    tree::lemma_lists_skip(reading.calls, call_at(nodes), at, stop);
}

/// What is found at a node and below it tells it.
proof fn lemma_visit(
    given: Given,
    at: int,
    enclosing: Option<ParsedSymbolId>,
    attributes: Seq<Seq<char>>,
    in_impl: bool,
    name: bool,
    found: Found,
    reading: Reading,
) -> (next: Reading)
    requires
        tree::is_tree(given.nodes),
        reached(given.nodes, at),
        in_impl == in_block(given.nodes, at),
        name == is_name(given.nodes, at),
        annotated(given, at, attributes),
        told(given, found, reading, at),
        enclosed(given.nodes, reading.symbols, enclosing, at),
        lang_rust::path_of(given.module, found.context) == prefix(
            given,
            found.symbols,
            enclosing,
        ),
    ensures
        lang_rust::visited(
            given,
            at,
            tree::end_of(given.nodes, at),
            enclosing,
            attributes,
            in_impl,
            name,
            found,
        ) matches Ok(seen) ==> {
            &&& told(given, seen, next, tree::end_of(given.nodes, at))
            &&& seen.context == found.context
            &&& begins(found.symbols, seen.symbols)
            &&& begins(reading.symbols, next.symbols)
        },
    decreases tree::end_of(given.nodes, at) - at, 0int,
{
    let nodes = given.nodes;
    let stop = tree::end_of(nodes, at);
    let kind = nodes[at].kind;
    tree::lemma_end_inside(nodes, at);
    let step = stepped(nodes, reading, at);
    if kind == "use_declaration"@ {
        lemma_imported(given, at, found, reading);
        step
    } else {
        lemma_definition_of(given, at, in_impl);
        assert(tree::at_child(nodes, at, at + 1)) by {
            if at + 1 < stop {
                tree::lemma_eldest(nodes, at);
            }
        }
        lemma_pending_start(given, at);
        lemma_name_node(nodes, at);
        match lang_rust::definition_of(given, at, stop, in_impl) {
            Err(_) => reading,
            Ok(None) => {
                lemma_used(given, at, enclosing, name, found, reading);
                match found.with_use(given, at, stop, enclosing, name) {
                    Err(_) => reading,
                    Ok(used) => {
                        lemma_below(
                            given,
                            at,
                            at + 1,
                            enclosing,
                            Seq::empty(),
                            lang_rust::impl_below(kind, in_impl),
                            None,
                            used,
                            step,
                        )
                    },
                }
            },
            Ok(Some(definition)) => {
                if definition.name_node is Some {
                    assert(names(nodes, at, definition.name_node->0));
                }
                lemma_defined(given, at, definition, enclosing, attributes, found, reading);
                match found.with_definition(given, at, definition, enclosing, attributes) {
                    Err(_) => reading,
                    Ok(defined) => {
                        let inner = Some(ParsedSymbolId(found.symbols.len() as u32));
                        lemma_kinds_differ();
                        assert(defined.with_use(given, at, stop, inner, name) == Ok::<
                            Found,
                            Seq<char>,
                        >(defined));
                        let next = lemma_below(
                            given,
                            at,
                            at + 1,
                            inner,
                            Seq::empty(),
                            lang_rust::impl_below(kind, in_impl),
                            definition.name_node,
                            defined,
                            step,
                        );
                        match lang_rust::visited_children(
                            given,
                            at + 1,
                            stop,
                            inner,
                            Seq::empty(),
                            lang_rust::impl_below(kind, in_impl),
                            definition.name_node,
                            defined,
                        ) {
                            Err(_) => {},
                            Ok(below) => {
                                assert(below.context.drop_last() =~= found.context);
                                lemma_begins(found.symbols, defined.symbols, below.symbols);
                                lemma_begins(reading.symbols, step.symbols, next.symbols);
                            },
                        }
                        next
                    },
                }
            },
        }
    }
}

proof fn lemma_begins<A>(first: Seq<A>, middle: Seq<A>, last: Seq<A>)
    requires
        begins(first, middle),
        begins(middle, last),
    ensures
        begins(first, last),
{
    assert forall|i: int| 0 <= i < first.len() implies #[trigger] last[i] == first[i] by {
        assert(middle[i] == first[i]);
    }
}

proof fn lemma_comments_differ()
    ensures
        "line_comment"@ != "attribute_item"@,
        "block_comment"@ != "attribute_item"@,
{
    reveal_strlit("line_comment");
    reveal_strlit("block_comment");
    reveal_strlit("attribute_item");
    assert("line_comment"@.len() == 12 && "block_comment"@.len() == 13);
    assert("attribute_item"@.len() == 14);
}

/// What is found at the children of the node at `u` from `at` on tells them.
proof fn lemma_below(
    given: Given,
    u: int,
    at: int,
    enclosing: Option<ParsedSymbolId>,
    pending: Seq<Seq<char>>,
    in_impl: bool,
    name: Option<int>,
    found: Found,
    reading: Reading,
) -> (next: Reading)
    requires
        tree::is_tree(given.nodes),
        reached(given.nodes, u),
        given.nodes[u].kind != "use_declaration"@,
        u < at,
        tree::at_child(given.nodes, u, at),
        in_impl == lang_rust::impl_below(given.nodes[u].kind, in_block(given.nodes, u)),
        name == if has_name(given.nodes[u].kind) {
            lang_rust::name_node(given.nodes, u, tree::end_of(given.nodes, u))
        } else {
            None
        },
        pending_told(given, u, at, pending),
        told(given, found, reading, at),
        inside(given.nodes, reading.symbols, enclosing, u),
        lang_rust::path_of(given.module, found.context) == prefix(
            given,
            found.symbols,
            enclosing,
        ),
    ensures
        lang_rust::visited_children(
            given,
            at,
            tree::end_of(given.nodes, u),
            enclosing,
            pending,
            in_impl,
            name,
            found,
        ) matches Ok(seen) ==> {
            &&& told(given, seen, next, tree::end_of(given.nodes, u))
            &&& seen.context == found.context
            &&& begins(found.symbols, seen.symbols)
            &&& begins(reading.symbols, next.symbols)
        },
    decreases tree::end_of(given.nodes, u) - at, 1int,
{
    let nodes = given.nodes;
    let stop = tree::end_of(nodes, u);
    if at >= stop {
        reading
    } else {
        let node = nodes[at];
        let after = tree::end_of(nodes, at);
        tree::lemma_next_child(nodes, u, at);
        lemma_child_reached(nodes, u, at);
        lemma_pending_on(given, u, at, pending);
        lemma_comments_differ();
        if !node.named || node.kind == "line_comment"@ || node.kind == "block_comment"@ {
            lemma_skipped(given, at, found, reading);
            lemma_below(given, u, after, enclosing, pending, in_impl, name, found, reading)
        } else if node.kind == "attribute_item"@ {
            lemma_skipped(given, at, found, reading);
            match lang_rust::text_of(node, given.source) {
                Err(_) => reading,
                Ok(attribute) => lemma_below(
                    given,
                    u,
                    after,
                    enclosing,
                    pending.push(attribute),
                    in_impl,
                    name,
                    found,
                    reading,
                ),
            }
        } else {
            lemma_annotated(given, u, at, pending);
            lemma_child_enclosed(nodes, reading.symbols, enclosing, u, at);
            lemma_child_in_block(nodes, u, at);
            lemma_child_name(nodes, u, at);
            let step = lemma_visit(
                given,
                at,
                enclosing,
                pending,
                in_impl,
                name == Some(at),
                found,
                reading,
            );
            match lang_rust::visited(
                given,
                at,
                after,
                enclosing,
                pending,
                in_impl,
                name == Some(at),
                found,
            ) {
                Err(_) => reading,
                Ok(seen) => {
                    assert(inside(nodes, step.symbols, enclosing, u));
                    assert(prefix(given, seen.symbols, enclosing) == prefix(
                        given,
                        found.symbols,
                        enclosing,
                    ));
                    let next = lemma_below(
                        given,
                        u,
                        after,
                        enclosing,
                        Seq::empty(),
                        in_impl,
                        name,
                        seen,
                        step,
                    );
                    match lang_rust::visited_children(
                        given,
                        after,
                        stop,
                        enclosing,
                        Seq::empty(),
                        in_impl,
                        name,
                        seen,
                    ) {
                        Err(_) => {},
                        Ok(all) => {
                            lemma_begins(found.symbols, seen.symbols, all.symbols);
                            lemma_begins(reading.symbols, step.symbols, next.symbols);
                        },
                    }
                    next
                },
            }
        }
    }
}

/// A name without the mark of a raw identifier.
pub open spec fn unmarked(name: Seq<char>) -> Seq<char> {
    if name.len() >= 2 && name[0] == 'r' && name[1] == '#' {
        name.skip(2)
    } else {
        name
    }
}

/// Whether a name is a single identifier, raw or not.
pub open spec fn single(name: Seq<char>) -> bool {
    unmarked(name).len() > 0 && forall|i: int|
        0 <= i < unmarked(name).len() ==> #[trigger] unmarked(name)[i] == '_'
            || text::alphanumeric(unmarked(name)[i])
}

/// Whether a symbol has a name, and can be called where that is asked.
pub open spec fn answers(symbol: SymbolShown, name: Seq<char>, callable: bool) -> bool {
    symbol.name == name && (callable ==> symbol.kind == KindShown::Known(SymbolKind::Function)
        || symbol.kind == KindShown::Known(SymbolKind::Method))
}

/// Whether the symbol at `i` is the only one that answers to a name.
pub open spec fn only(symbols: Seq<SymbolShown>, name: Seq<char>, callable: bool, i: int) -> bool {
    &&& 0 <= i < symbols.len()
    &&& answers(symbols[i], name, callable)
    &&& forall|j: int|
        0 <= j < symbols.len() && answers(#[trigger] symbols[j], name, callable) ==> j == i
}

/// Whether a target is the only symbol of the file that answers to a single identifier;
/// where there is none or more than one, it keeps the name.
pub open spec fn target_told(
    symbols: Seq<SymbolShown>,
    name: Seq<char>,
    callable: bool,
    target: TargetShown,
) -> bool {
    match target {
        TargetShown::Local(id) => single(name) && only(symbols, name, callable, id.0 as int),
        TargetShown::Unresolved(kept) => kept == name && !(single(name) && exists|i: int|
            only(symbols, name, callable, i)),
    }
}

/// Whether a call tells the node at its place: who calls, and what. Only functions and
/// methods are called.
pub open spec fn call_told(
    given: Given,
    symbols: Seq<SymbolShown>,
    places: Seq<int>,
    call: CallShown,
    v: int,
) -> bool {
    &&& spans(given.nodes[v], call.span)
    &&& enclosed(given.nodes, places, call.caller_id, v)
    &&& call.confidence is None
    &&& exists|name: Seq<char>|
        calls_name(given, v, name) && #[trigger] target_told(symbols, name, true, call.target)
}

/// Whether a reference tells the node at its place.
pub open spec fn reference_told(
    given: Given,
    symbols: Seq<SymbolShown>,
    places: Seq<int>,
    reference: ReferenceShown,
    v: int,
) -> bool {
    &&& spans(given.nodes[v], reference.span)
    &&& enclosed(given.nodes, places, reference.source_id, v)
    &&& reference.kind == ReferenceKind::Read
    &&& exists|name: Seq<char>|
        syntax::node_text(given.nodes[v], given.source) == Some(name) && #[trigger] target_told(
            symbols,
            name,
            false,
            reference.target,
        )
}

/// Whether the records of a file are those of the nodes of its tree: a symbol for every
/// definition, an import for every declaration of one, a call for every call and a
/// reference for every identifier that is not the name of its definition, each list in
/// the order of the file, and an entry point for every function that is one.
pub open spec fn read(given: Given, file: FileShown, reading: Reading) -> bool {
    let nodes = given.nodes;
    &&& reading.symbols.len() == file.symbols.len()
    &&& reading.imports.len() == file.imports.len()
    &&& reading.references.len() == file.references.len()
    &&& reading.calls.len() == file.calls.len()
    &&& forall|e: int|
        0 <= e < file.entry_points.len() ==> entry_placed(
            given,
            file.symbols,
            reading.symbols,
            #[trigger] file.entry_points[e],
        )
    &&& forall|k: int|
        0 <= k < file.symbols.len() ==> #[trigger] function_placed(
            given,
            file.symbols,
            reading.symbols,
            file.entry_points,
            k,
        )
    &&& tree::lists(reading.symbols, definition_at(nodes), nodes.len() as int)
    &&& tree::lists(reading.imports, import_at(nodes), nodes.len() as int)
    &&& tree::lists(reading.references, reference_at(nodes), nodes.len() as int)
    &&& tree::lists(reading.calls, call_at(nodes), nodes.len() as int)
    &&& forall|k: int|
        0 <= k < file.symbols.len() ==> #[trigger] symbol_told(
            given,
            file.symbols,
            reading.symbols,
            k,
        )
    &&& forall|k: int|
        0 <= k < file.imports.len() ==> import_told(
            given,
            #[trigger] file.imports[k],
            reading.imports[k],
        )
    &&& forall|k: int|
        0 <= k < file.references.len() ==> reference_told(
            given,
            file.symbols,
            reading.symbols,
            #[trigger] file.references[k],
            reading.references[k],
        )
    &&& forall|k: int|
        0 <= k < file.calls.len() ==> call_told(
            given,
            file.symbols,
            reading.symbols,
            #[trigger] file.calls[k],
            reading.calls[k],
        )
}

/// The symbols that answer to a name.
proof fn lemma_candidates(symbols: Seq<SymbolShown>, name: Seq<char>, callable: bool)
    requires
        forall|i: int| 0 <= i < symbols.len() ==> (#[trigger] symbols[i]).local_id.0 == i,
    ensures
        ({
            let found = lang_rust::candidates(symbols, name, callable);
            &&& forall|k: int|
                0 <= k < found.len() ==> (#[trigger] found[k]).0 < symbols.len() && answers(
                    symbols[found[k].0 as int],
                    name,
                    callable,
                )
            &&& forall|k: int, l: int|
                0 <= k < l < found.len() ==> (#[trigger] found[k]).0 < (#[trigger] found[l]).0
            &&& forall|i: int|
                0 <= i < symbols.len() && answers(#[trigger] symbols[i], name, callable)
                    ==> found.contains(symbols[i].local_id)
        }),
    decreases symbols.len(),
{
    if symbols.len() > 0 {
        let rest = symbols.drop_last();
        let earlier = lang_rust::candidates(rest, name, callable);
        let found = lang_rust::candidates(symbols, name, callable);
        let last = symbols.len() - 1;
        assert forall|i: int| 0 <= i < rest.len() implies (#[trigger] rest[i]).local_id.0 == i by {
            assert(rest[i] == symbols[i]);
        }
        lemma_candidates(rest, name, callable);
        assert forall|k: int| 0 <= k < found.len() implies (#[trigger] found[k]).0 < symbols.len()
            && answers(symbols[found[k].0 as int], name, callable) by {
            if k < earlier.len() {
                assert(found[k] == earlier[k]);
                assert(symbols[earlier[k].0 as int] == rest[earlier[k].0 as int]);
            }
        }
        assert forall|i: int|
            0 <= i < symbols.len() && answers(
                #[trigger] symbols[i],
                name,
                callable,
            ) implies found.contains(symbols[i].local_id) by {
            if i < last {
                assert(rest[i] == symbols[i]);
                assert(earlier.contains(rest[i].local_id));
                let k = choose|k: int|
                    0 <= k < earlier.len() && earlier[k] == rest[i].local_id;
                assert(found[k] == earlier[k]);
            } else {
                assert(found[found.len() - 1] == symbols[i].local_id);
            }
        }
    }
}

/// What a name leads to.
proof fn lemma_resolved(symbols: Seq<SymbolShown>, name: Seq<char>, callable: bool)
    requires
        forall|i: int| 0 <= i < symbols.len() ==> (#[trigger] symbols[i]).local_id.0 == i,
    ensures
        target_told(
            symbols,
            name,
            callable,
            lang_rust::resolved(TargetShown::Unresolved(name), symbols, callable),
        ),
{
    let found = lang_rust::candidates(symbols, name, callable);
    lemma_candidates(symbols, name, callable);
    assert(single(name) == lang_rust::is_simple(name)) by {
        let mark = seq!['r', '#'];
        if text::starts_with(name, mark) {
            assert(name.take(2)[0] == mark[0] && name.take(2)[1] == mark[1]);
            assert(name[0] == 'r' && name[1] == '#');
        }
        if name.len() >= 2 && name[0] == 'r' && name[1] == '#' {
            assert(name.take(2) =~= mark);
        }
        assert(unmarked(name) == lang_rust::plain_name(name));
    }
    if found.len() == 1 {
        let i = found[0].0 as int;
        assert forall|j: int|
            0 <= j < symbols.len() && answers(
                #[trigger] symbols[j],
                name,
                callable,
            ) implies j == i by {
            assert(found.contains(symbols[j].local_id));
        }
        assert(only(symbols, name, callable, i));
    } else if exists|i: int| only(symbols, name, callable, i) {
        let i = choose|i: int| only(symbols, name, callable, i);
        assert(found.contains(symbols[i].local_id));
        if found.len() > 1 {
            assert(found[0].0 < found[1].0);
            assert(answers(symbols[found[0].0 as int], name, callable));
            assert(answers(symbols[found[1].0 as int], name, callable));
        }
    }
}

/// The records of a Rust file are those of its syntax tree. In particular a symbol of a
/// `function_item` is a method if and only if an implementation or a trait stands above
/// it with no module in between, and a function otherwise; the parent of a symbol is the
/// innermost definition around it; and the target of a call is the one function or
/// method of the file with its name.
pub proof fn law_rust_records_tell_the_tree(
    path: RepositoryPath,
    source: Seq<char>,
    nodes: Seq<NodeShown>,
) -> (reading: Reading)
    requires
        tree::is_tree(nodes),
        lang_rust::extracted(path, source, nodes) is Ok,
    ensures
        ({
            let file = lang_rust::extracted(path, source, nodes)->Ok_0;
            file.module is Some && read(
                Given { nodes, source, module: (file.module->0).qualified_name },
                file,
                reading,
            )
        }),
{
    let file = lang_rust::extracted(path, source, nodes)->Ok_0;
    let module = lang_rust::module_of(path@, nodes[0])->Ok_0;
    let given = Given { nodes, source, module: module.qualified_name };
    let start = Found {
        symbols: Seq::empty(),
        imports: Seq::empty(),
        references: Seq::empty(),
        calls: Seq::empty(),
        entry_points: lang_rust::library_entries(path@, module.span->0),
        context: Seq::empty(),
    };
    let nothing = Reading {
        symbols: Seq::empty(),
        imports: Seq::empty(),
        references: Seq::empty(),
        calls: Seq::empty(),
    };
    let stop = nodes.len() as int;
    let found = lang_rust::visited(given, 0, stop, None, Seq::empty(), false, false, start)->Ok_0;
    assert(annotated(given, 0, Seq::empty())) by {
        reveal(annotated);
    }
    assert(told(given, start, nothing, 0)) by {
        assert forall|e: int| 0 <= e < start.entry_points.len() implies entry_placed(
            given,
            start.symbols,
            nothing.symbols,
            #[trigger] start.entry_points[e],
        ) by {
            reveal(entry_placed);
            assert(is_library(start.entry_points[e]));
        }
    }
    let reading = if !counts(nodes, 0) {
        lemma_skipped(given, 0, start, nothing);
        nothing
    } else {
        assert(reached(nodes, 0));
        assert(!in_block(nodes, 0));
        assert(!is_name(nodes, 0)) by {
            if is_name(nodes, 0) {
                let v = choose|v: int|
                    0 <= v < nodes.len() && has_name(nodes[v].kind) && #[trigger] names(
                        nodes,
                        v,
                        0,
                    );
                assert(tree::child_of(nodes, v, 0));
            }
        }
        lemma_visit(given, 0, None, Seq::empty(), false, false, start, nothing)
    };
    assert(told(given, found, reading, stop));
    assert forall|i: int| 0 <= i < found.symbols.len() implies (
    #[trigger] found.symbols[i]).local_id.0 == i by {
        reveal(symbol_told);
        assert(symbol_told(given, found.symbols, reading.symbols, i));
    }
    assert forall|k: int| 0 <= k < file.references.len() implies reference_told(
        given,
        file.symbols,
        reading.symbols,
        #[trigger] file.references[k],
        reading.references[k],
    ) by {
        reveal(reference_found);
        assert(reference_found(
            given,
            reading.symbols,
            found.references[k],
            reading.references[k],
        ));
        let name = found.references[k].target->Unresolved_0;
        lemma_resolved(found.symbols, name, false);
        assert(target_told(file.symbols, name, false, file.references[k].target));
    }
    assert forall|k: int| 0 <= k < file.calls.len() implies call_told(
        given,
        file.symbols,
        reading.symbols,
        #[trigger] file.calls[k],
        reading.calls[k],
    ) by {
        reveal(call_found);
        assert(call_found(given, reading.symbols, found.calls[k], reading.calls[k]));
        let name = found.calls[k].target->Unresolved_0;
        lemma_resolved(found.symbols, name, true);
        assert(target_told(file.symbols, name, true, file.calls[k].target));
    }
    reading
}

} // verus!
