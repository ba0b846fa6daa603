//! What the records of a Python file say of its syntax tree.
use crate::canonical;
use crate::ir::{EntryPointKind, ReferenceKind, SymbolKind};
use crate::lang_python;
use crate::lang_python::{ActiveScope, Defined, Given, Records};
use crate::parser::{
    CallShown, EntryShown, FileShown, ImportShown, KindShown, ParsedSymbolId, ReferenceShown,
    SymbolShown, TargetShown,
};
use crate::path::RepositoryPath;
use crate::sort;
use crate::syntax;
use crate::syntax::NodeShown;
use crate::text;
use crate::tree;
use crate::wrap;
use vstd::prelude::*;

verus! {

/// Whether a node and all above it stand for rules of the grammar.
pub open spec fn reached(nodes: Seq<NodeShown>, v: int) -> bool {
    &&& 0 <= v < nodes.len()
    &&& v == 0 || nodes[v].named
    &&& forall|u: int| #[trigger] tree::below(nodes, u, v) && u > 0 ==> nodes[u].named
}

/// Whether a node is a function or a class with a name.
pub open spec fn opens(nodes: Seq<NodeShown>, v: int) -> bool {
    &&& nodes[v].kind == "function_definition"@ || nodes[v].kind == "class_definition"@
    &&& exists|c: int| #[trigger] tree::first_child(nodes, v, c, tree::with_field("name"@))
}

/// Whether the node at `u` is the innermost function or class around the node at `v`.
pub open spec fn owner(nodes: Seq<NodeShown>, u: int, v: int) -> bool {
    &&& tree::below(nodes, u, v)
    &&& opens(nodes, u)
    &&& forall|w: int| #[trigger] tree::below(nodes, w, v) && u < w ==> !opens(nodes, w)
}

/// Whether a local ID is that of the innermost function or class around a node, where
/// `places` are the nodes of the symbols; where there is none around it there is no ID.
pub open spec fn enclosed(
    nodes: Seq<NodeShown>,
    places: Seq<int>,
    id: Option<ParsedSymbolId>,
    v: int,
) -> bool {
    match id {
        None => forall|u: int| #[trigger] tree::below(nodes, u, v) ==> !opens(nodes, u),
        Some(id) => id.0 < places.len() && owner(nodes, places[id.0 as int], v),
    }
}

/// Whether the innermost function or class around a node is a class.
pub open spec fn in_class(nodes: Seq<NodeShown>, v: int) -> bool {
    exists|u: int| #[trigger] owner(nodes, u, v) && nodes[u].kind == "class_definition"@
}

/// Whether no function is the innermost function or class around a node.
pub open spec fn in_module_or_class(nodes: Seq<NodeShown>, v: int) -> bool {
    forall|u: int| #[trigger] owner(nodes, u, v) ==> nodes[u].kind == "class_definition"@
}

/// The range of a node: lines count from one, columns from zero.
pub open spec fn spans(node: NodeShown, span: ((u32, u32), (u32, u32))) -> bool {
    &&& span.0.0 == node.start_row + 1
    &&& span.0.1 == node.start_column
    &&& span.1.0 == node.end_row + 1
    &&& span.1.1 == node.end_column
}

/// Whether a text is that of the first child of a node with a role.
pub open spec fn says(given: Given, v: int, field: Seq<char>, written: Seq<char>) -> bool {
    exists|c: int| #[trigger]
        tree::first_child(given.nodes, v, c, tree::with_field(field)) && given.text(c) == Ok::<
            Seq<char>,
            Seq<char>,
        >(written)
}

/// Whether a name is written like that of a constant: in upper-case letters, of which
/// there is one at least, numerals and underscores.
pub open spec fn constant_name(name: Seq<char>) -> bool {
    &&& exists|i: int| 0 <= i < name.len() && text::uppercase(#[trigger] name[i])
    &&& forall|i: int|
        0 <= i < name.len() && #[trigger] name[i] != '_' ==> text::uppercase(name[i])
            || text::numeric(name[i])
}

/// Whether an annotation without white space declares a name final, by itself or in a
/// module, for any type or for one.
pub open spec fn declares_final(annotation: Seq<char>) -> bool {
    ||| annotation == "Final"@
    ||| exists|rest: Seq<char>| annotation == #[trigger] ("Final["@ + rest)
    ||| exists|front: Seq<char>| annotation == #[trigger] (front + ".Final"@)
    ||| exists|front: Seq<char>, rest: Seq<char>|
        annotation == #[trigger] (front + ".Final["@ + rest)
}

/// Whether an assignment has an annotation that declares its name final.
pub open spec fn final_told(given: Given, v: int) -> bool {
    exists|c: int| #[trigger]
        tree::first_child(given.nodes, v, c, tree::with_field("type"@)) && (given.text(
            c,
        ) matches Ok(written) && declares_final(wrap::without_blanks(written)))
}

/// Whether an assignment is to a plain name, which is written like that of a constant or
/// declared final.
pub open spec fn constant_said(given: Given, v: int, name: Seq<char>) -> bool {
    &&& exists|c: int| #[trigger]
        tree::first_child(given.nodes, v, c, tree::with_field("left"@)) && given.nodes[c].kind
            == "identifier"@ && given.text(c) == Ok::<Seq<char>, Seq<char>>(name)
    &&& constant_name(name) || final_told(given, v)
}

/// Whether a node assigns a constant of the module or of a class.
pub open spec fn constant_node(given: Given, v: int) -> bool {
    &&& reached(given.nodes, v)
    &&& given.nodes[v].kind == "assignment"@
    &&& in_module_or_class(given.nodes, v)
    &&& exists|name: Seq<char>| #[trigger] constant_said(given, v, name)
}

pub open spec fn is_constant(symbol: SymbolShown) -> bool {
    symbol.kind == KindShown::Known(SymbolKind::Constant)
}

/// Whether a symbol is the constant that a node assigns.
pub open spec fn constant_for(
    given: Given,
    symbols: Seq<SymbolShown>,
    places: Seq<int>,
    k: int,
    v: int,
) -> bool {
    &&& 0 <= k < symbols.len()
    &&& is_constant(symbols[k])
    &&& enclosed(given.nodes, places, symbols[k].parent_id, v)
    &&& constant_said(given, v, symbols[k].name)
}

/// Whether every constant that is assigned before `to` has a symbol, and no two constants
/// of a module or a class have the same name.
#[verifier::opaque]
pub open spec fn constants_told(
    given: Given,
    symbols: Seq<SymbolShown>,
    places: Seq<int>,
    to: int,
) -> bool {
    &&& forall|v: int| #[trigger]
        constant_node(given, v) && v < to ==> exists|k: int|
            constant_for(given, symbols, places, k, v)
    &&& forall|i: int, j: int|
        0 <= i < j < symbols.len() && is_constant(#[trigger] symbols[i]) && is_constant(
            #[trigger] symbols[j],
        ) && symbols[i].parent_id == symbols[j].parent_id ==> symbols[i].name != symbols[j].name
}

/// Whether a symbol has the kind and the name of its definition.
pub open spec fn definition_told(given: Given, v: int, symbol: SymbolShown) -> bool {
    let nodes = given.nodes;
    ||| {
        &&& nodes[v].kind == "function_definition"@
        &&& symbol.kind == KindShown::Known(
            if in_class(nodes, v) {
                SymbolKind::Method
            } else {
                SymbolKind::Function
            },
        )
        &&& says(given, v, "name"@, symbol.name)
    }
    ||| {
        &&& nodes[v].kind == "class_definition"@
        &&& symbol.kind == KindShown::Known(SymbolKind::Class)
        &&& says(given, v, "name"@, symbol.name)
    }
    ||| {
        &&& nodes[v].kind == "assignment"@
        &&& symbol.kind == KindShown::Known(SymbolKind::Constant)
        &&& in_module_or_class(nodes, v)
        &&& constant_said(given, v, symbol.name)
    }
}

/// The full name of a function or a class, or that of the file's module.
pub open spec fn prefix(
    given: Given,
    symbols: Seq<SymbolShown>,
    id: Option<ParsedSymbolId>,
) -> Seq<char> {
    match id {
        None => given.module,
        Some(id) => symbols[id.0 as int].qualified_name,
    }
}

/// Whether a symbol tells the definition at its place.
#[verifier::opaque]
pub open spec fn symbol_told(
    given: Given,
    symbols: Seq<SymbolShown>,
    places: Seq<int>,
    k: int,
) -> bool {
    let symbol = symbols[k];
    let v = places[k];
    &&& symbol.local_id.0 == k
    &&& reached(given.nodes, v)
    &&& spans(given.nodes[v], symbol.span)
    &&& definition_told(given, v, symbol)
    &&& enclosed(given.nodes, places, symbol.parent_id, v)
    &&& symbol.parent_id is Some ==> (symbol.parent_id->0).0 < k
    &&& symbol.qualified_name == prefix(given, symbols, symbol.parent_id) + "."@ + symbol.name
}

/// The places in which a name is looked up from a function, a class or the module: that
/// one, the one around it, and so on to the module.
pub open spec fn lineage(symbols: Seq<SymbolShown>, id: Option<ParsedSymbolId>) -> Seq<
    Option<ParsedSymbolId>,
>
    decreases
            match id {
                Some(id) => id.0 + 1,
                None => 0,
            },
{
    match id {
        None => seq![None],
        Some(own) => match symbols[own.0 as int].parent_id {
            None => seq![id, None],
            Some(parent) => if parent.0 < own.0 {
                seq![id] + lineage(symbols, Some(parent))
            } else {
                seq![id]
            },
        },
    }
}

pub open spec fn is_class(symbols: Seq<SymbolShown>, id: Option<ParsedSymbolId>) -> bool {
    id matches Some(id) && symbols[id.0 as int].kind == KindShown::Known(SymbolKind::Class)
}

/// Whether the place at `i` is visible: a class is not from a function in it.
pub open spec fn visible(
    symbols: Seq<SymbolShown>,
    line: Seq<Option<ParsedSymbolId>>,
    i: int,
) -> bool {
    &&& 0 <= i < line.len()
    &&& is_class(symbols, line[i]) ==> forall|j: int|
        0 <= j < i ==> is_class(symbols, #[trigger] line[j])
}

/// Whether a symbol of a place has a name, and can be called where that is asked:
/// functions, methods and classes can.
pub open spec fn answers(
    symbol: SymbolShown,
    name: Seq<char>,
    place: Option<ParsedSymbolId>,
    callable: bool,
) -> bool {
    &&& symbol.name == name
    &&& symbol.parent_id == place
    &&& callable ==> {
        ||| symbol.kind == KindShown::Known(SymbolKind::Function)
        ||| symbol.kind == KindShown::Known(SymbolKind::Method)
        ||| symbol.kind == KindShown::Known(SymbolKind::Class)
    }
}

/// Whether the symbol at `t` is the latest of a place that answers to a name.
pub open spec fn latest(
    symbols: Seq<SymbolShown>,
    name: Seq<char>,
    place: Option<ParsedSymbolId>,
    callable: bool,
    t: int,
) -> bool {
    &&& 0 <= t < symbols.len()
    &&& answers(symbols[t], name, place, callable)
    &&& forall|j: int|
        t < j < symbols.len() ==> !answers(#[trigger] symbols[j], name, place, callable)
}

/// Whether no symbol of a place answers to a name.
pub open spec fn unknown(
    symbols: Seq<SymbolShown>,
    name: Seq<char>,
    place: Option<ParsedSymbolId>,
    callable: bool,
) -> bool {
    forall|j: int|
        0 <= j < symbols.len() ==> !answers(#[trigger] symbols[j], name, place, callable)
}

/// Whether the symbol at `t` is what a name means from a place: the latest symbol with
/// the name in the nearest visible place that has one.
pub open spec fn means(
    symbols: Seq<SymbolShown>,
    from: Option<ParsedSymbolId>,
    name: Seq<char>,
    callable: bool,
    t: int,
) -> bool {
    let line = lineage(symbols, from);
    exists|i: int|
        {
            &&& #[trigger] visible(symbols, line, i)
            &&& latest(symbols, name, line[i], callable, t)
            &&& forall|j: int| #[trigger]
                visible(symbols, line, j) && j < i ==> unknown(symbols, name, line[j], callable)
        }
}

/// Whether a target is what a plain name means from a place; where it means nothing, or
/// is no plain name, the target keeps the name.
pub open spec fn target_told(
    symbols: Seq<SymbolShown>,
    from: Option<ParsedSymbolId>,
    name: Seq<char>,
    callable: bool,
    plain: bool,
    target: TargetShown,
) -> bool {
    match target {
        TargetShown::Local(id) => plain && means(symbols, from, name, callable, id.0 as int),
        TargetShown::Unresolved(kept) => kept == name && !(plain && exists|t: int| #[trigger]
            means(symbols, from, name, callable, t)),
    }
}

/// Whether a node is a plain name.
pub open spec fn is_plain(nodes: Seq<NodeShown>, v: int) -> bool {
    nodes[v].kind == "identifier"@
}

/// Whether a call tells the node at its place: who calls, and what is called. What is
/// called is a plain name where it is an identifier.
#[verifier::opaque]
pub open spec fn call_told(
    given: Given,
    symbols: Seq<SymbolShown>,
    places: Seq<int>,
    call: CallShown,
    v: int,
) -> bool {
    &&& spans(given.nodes[v], call.span)
    &&& enclosed(given.nodes, places, call.caller_id, v)
    &&& call.confidence is None
    &&& exists|f: int, name: Seq<char>|
        {
            &&& #[trigger] tree::first_child(given.nodes, v, f, tree::with_field("function"@))
            &&& is_plain(given.nodes, f) ==> exists|written: Seq<char>|
                given.text(f) == Ok::<Seq<char>, Seq<char>>(written) && name
                    == #[trigger] text::trim(written)
            &&& #[trigger] target_told(
                symbols,
                call.caller_id,
                name,
                true,
                is_plain(given.nodes, f),
                call.target,
            )
        }
}

pub open spec fn scope_node(nodes: Seq<NodeShown>) -> spec_fn(int) -> bool {
    |v: int| reached(nodes, v) && opens(nodes, v)
}

pub open spec fn call_node(nodes: Seq<NodeShown>) -> spec_fn(int) -> bool {
    |v: int|
        reached(nodes, v) && nodes[v].kind == "call"@ && !tree::no_child(
            nodes,
            v,
            tree::with_field("function"@),
        )
}

/// Whether places ascend.
pub open spec fn ascends(places: Seq<int>) -> bool {
    forall|i: int, j: int|
        0 <= i < j < places.len() ==> #[trigger] places[i] < #[trigger] places[j]
}

/// Whether what is defined tells the nodes before `to`: every function and class has a
/// symbol and a scope.
spec fn defined_told(given: Given, defined: Defined, places: Seq<int>, to: int) -> bool {
    let nodes = given.nodes;
    &&& places.len() == defined.symbols.len() <= u32::MAX + 1
    &&& ascends(places)
    &&& forall|k: int| 0 <= k < places.len() ==> 0 <= #[trigger] places[k] < to
    &&& forall|k: int|
        0 <= k < places.len() ==> #[trigger] symbol_told(given, defined.symbols, places, k)
    &&& forall|at: usize| #[trigger]
        defined.scopes.contains_key(at) <==> at < to && scope_node(nodes)(at as int)
    &&& forall|at: usize| #[trigger]
        defined.scopes.contains_key(at) ==> scope_told(given, defined, places, at)
}

/// Whether the scope of a node is that of its symbol.
spec fn scope_told(given: Given, defined: Defined, places: Seq<int>, at: usize) -> bool {
    let scope = defined.scopes[at];
    &&& scope.id.0 < places.len()
    &&& places[scope.id.0 as int] == at
    &&& scope.is_class == (given.nodes[at as int].kind == "class_definition"@)
}

/// Whether a node is a base class that is a test case.
pub open spec fn is_test_base(given: Given, b: int) -> bool {
    let base = lang_python::base_node(given, b, tree::end_of(given.nodes, b));
    &&& given.nodes[b].named
    &&& given.nodes[b].kind != "keyword_argument"@
    &&& lang_python::reference_name(given, base.0, base.1) matches Ok(name) && (name
        == "TestCase"@ || text::ends_with(name, ".TestCase"@))
}

/// Whether a class has a test case among its base classes.
pub open spec fn has_test_base(given: Given, v: int) -> bool {
    exists|a: int, b: int| #[trigger]
        tree::first_child(given.nodes, v, a, tree::with_field("superclasses"@))
            && #[trigger] tree::child_of(given.nodes, a, b) && is_test_base(given, b)
}

/// Whether the test cases that are known are the classes with one as a base.
spec fn cases_told(given: Given, defined: Defined, places: Seq<int>) -> bool {
    &&& forall|id: ParsedSymbolId| #[trigger]
        defined.test_cases.contains(id) ==> id.0 < places.len()
    &&& forall|k: int|
        0 <= k < places.len() ==> defined.test_cases.contains(
            ParsedSymbolId(k as u32),
        ) == #[trigger] case_at(given, places[k])
}

spec fn case_at(given: Given, v: int) -> bool {
    given.nodes[v].kind == "class_definition"@ && has_test_base(given, v)
}

/// Whether a list begins with another.
spec fn begins<A>(first: Seq<A>, whole: Seq<A>) -> bool {
    first.len() <= whole.len() && forall|i: int|
        0 <= i < first.len() ==> #[trigger] whole[i] == first[i]
}

proof fn lemma_begins<A>(first: Seq<A>, middle: Seq<A>, last: Seq<A>)
    requires
        begins(first, middle),
        begins(middle, last),
    ensures
        begins(first, last),
{
    assert forall|i: int| 0 <= i < first.len() implies #[trigger] last[i] == first[i] by {
        assert(middle[i] == first[i]);
    }
}

/// Whether scopes are those of the functions and classes at or above a node, the
/// innermost last.
#[verifier::opaque]
spec fn scopes_told(
    given: Given,
    symbols: Seq<SymbolShown>,
    places: Seq<int>,
    scopes: Seq<ActiveScope>,
) -> bool {
    &&& forall|i: int|
        0 <= i < scopes.len() ==> (#[trigger] scopes[i]).id.0 < symbols.len()
            && scopes[i].is_class == is_class(symbols, Some(scopes[i].id))
            && scopes[i].is_class == (given.nodes[places[scopes[i].id.0 as int]].kind
            == "class_definition"@)
    &&& forall|i: int|
        0 <= i < scopes.len() ==> symbols[(#[trigger] scopes[i]).id.0 as int].parent_id
            == lang_python::innermost(scopes.take(i))
}

/// Whether an ID is that of the innermost function or class at or above a node.
spec fn inside(
    nodes: Seq<NodeShown>,
    places: Seq<int>,
    id: Option<ParsedSymbolId>,
    u: int,
) -> bool {
    if opens(nodes, u) {
        id matches Some(id) && id.0 < places.len() && places[id.0 as int] == u
    } else {
        enclosed(nodes, places, id, u)
    }
}

proof fn lemma_child_enclosed(
    nodes: Seq<NodeShown>,
    places: Seq<int>,
    id: Option<ParsedSymbolId>,
    u: int,
    c: int,
)
    requires
        tree::is_tree(nodes),
        0 <= u < nodes.len(),
        tree::child_of(nodes, u, c),
        inside(nodes, places, id, u),
    ensures
        enclosed(nodes, places, id, c),
{
    tree::lemma_above_child(nodes, u, c);
}

proof fn lemma_child_reached(nodes: Seq<NodeShown>, u: int, c: int)
    requires
        tree::is_tree(nodes),
        tree::child_of(nodes, u, c),
        reached(nodes, u),
    ensures
        0 < c < nodes.len(),
        reached(nodes, c) == nodes[c].named,
{
    tree::lemma_above_child(nodes, u, c);
    tree::lemma_end_inside(nodes, u);
    if nodes[c].named {
        assert forall|w: int| #[trigger] tree::below(nodes, w, c) && w > 0 implies
            nodes[w].named by {
            assert(w == u || tree::below(nodes, w, u));
        }
    }
}

proof fn lemma_unreached(nodes: Seq<NodeShown>, at: int)
    requires
        tree::is_tree(nodes),
        0 < at < nodes.len(),
        !nodes[at].named,
    ensures
        forall|v: int| at <= v < tree::end_of(nodes, at) ==> !#[trigger] reached(nodes, v),
{
    assert forall|v: int| at <= v < tree::end_of(nodes, at) implies !#[trigger] reached(
        nodes,
        v,
    ) by {
        if v > at {
            assert(tree::below(nodes, at, v));
        }
    }
}

/// The innermost function or class around a node is one.
proof fn lemma_one_owner(nodes: Seq<NodeShown>, u: int, w: int, v: int)
    requires
        owner(nodes, u, v),
        owner(nodes, w, v),
    ensures
        u == w,
{
}

/// What is around a node by its scopes.
proof fn lemma_in_class(
    given: Given,
    symbols: Seq<SymbolShown>,
    places: Seq<int>,
    scopes: Seq<ActiveScope>,
    v: int,
)
    requires
        scopes_told(given, symbols, places, scopes),
        enclosed(given.nodes, places, lang_python::innermost(scopes), v),
    ensures
        in_class(given.nodes, v) == (scopes.len() > 0 && scopes.last().is_class),
        in_module_or_class(given.nodes, v) == !(scopes.len() > 0 && !scopes.last().is_class),
{
    let nodes = given.nodes;
    if scopes.len() > 0 {
        let u = places[scopes.last().id.0 as int];
        assert(scopes.last().is_class == (nodes[u].kind == "class_definition"@)) by {
            reveal(scopes_told);
            assert(scopes[scopes.len() - 1] == scopes.last());
        }
        assert(owner(nodes, u, v));
        assert forall|w: int| #[trigger] owner(nodes, w, v) implies w == u by {
            lemma_one_owner(nodes, u, w, v);
        }
    } else {
        assert forall|u: int| !#[trigger] owner(nodes, u, v) by {}
    }
}

/// What is said of symbols stays when another is found.
proof fn lemma_symbols_stay(
    given: Given,
    symbols: Seq<SymbolShown>,
    places: Seq<int>,
    symbol: SymbolShown,
    place: int,
)
    requires
        places.len() == symbols.len(),
    ensures
        forall|k: int|
            0 <= k < symbols.len() && symbol_told(given, symbols, places, k)
                ==> #[trigger] symbol_told(given, symbols.push(symbol), places.push(place), k),
{
    let more = symbols.push(symbol);
    let further = places.push(place);
    assert forall|k: int|
        0 <= k < symbols.len() && symbol_told(
            given,
            symbols,
            places,
            k,
        ) implies #[trigger] symbol_told(given, more, further, k) by {
        reveal(symbol_told);
        assert(more[k] == symbols[k] && further[k] == places[k]);
        match symbols[k].parent_id {
            Some(id) => {
                assert(more[id.0 as int] == symbols[id.0 as int]);
                assert(further[id.0 as int] == places[id.0 as int]);
            },
            None => {},
        }
    }
}

/// Scopes stay those of their symbols when more symbols are found.
proof fn lemma_scopes_stay(
    given: Given,
    symbols: Seq<SymbolShown>,
    places: Seq<int>,
    more: Seq<SymbolShown>,
    further: Seq<int>,
    scopes: Seq<ActiveScope>,
)
    requires
        symbols.len() == places.len(),
        scopes_told(given, symbols, places, scopes),
        begins(symbols, more),
        begins(places, further),
    ensures
        scopes_told(given, more, further, scopes),
{
    reveal(scopes_told);
    assert forall|i: int| 0 <= i < scopes.len() implies (#[trigger] scopes[i]).id.0 < more.len()
        && scopes[i].is_class == is_class(more, Some(scopes[i].id)) && scopes[i].is_class == (
    given.nodes[further[scopes[i].id.0 as int]].kind == "class_definition"@) by {
        let id = scopes[i].id.0 as int;
        assert(more[id] == symbols[id]);
        assert(further[id] == places[id]);
    }
    assert forall|i: int| 0 <= i < scopes.len() implies more[(
    #[trigger] scopes[i]).id.0 as int].parent_id == lang_python::innermost(scopes.take(i)) by {
        let id = scopes[i].id.0 as int;
        assert(more[id] == symbols[id]);
    }
}

/// The kinds of nodes that are told apart.
proof fn lemma_kinds_differ()
    ensures
        "function_definition"@ != "class_definition"@,
        "assignment"@ != "class_definition"@,
        "assignment"@ != "function_definition"@,
        "call"@ != "class_definition"@,
        "call"@ != "function_definition"@,
        "call"@ != "import_statement"@,
        "call"@ != "import_from_statement"@,
        "call"@ != "future_import_statement"@,
        "call"@ != "if_statement"@,
{
    reveal_strlit("function_definition");
    reveal_strlit("class_definition");
    reveal_strlit("assignment");
    reveal_strlit("call");
    reveal_strlit("import_statement");
    reveal_strlit("import_from_statement");
    reveal_strlit("future_import_statement");
    reveal_strlit("if_statement");
    assert("function_definition"@.len() == 19 && "class_definition"@.len() == 16);
    assert("assignment"@.len() == 10 && "call"@.len() == 4 && "if_statement"@.len() == 12);
    assert("import_statement"@.len() == 16 && "import_from_statement"@.len() == 21);
    assert("future_import_statement"@.len() == 23);
}

/// A range that can be told.
proof fn lemma_spans(node: NodeShown)
    ensures
        lang_python::range_of(node) matches Ok(span) ==> spans(node, span),
{
}

/// One more symbol is told.
proof fn lemma_symbol_defined(
    given: Given,
    at: int,
    scopes: Seq<ActiveScope>,
    name: Seq<char>,
    kind: SymbolKind,
    defined: Defined,
    places: Seq<int>,
)
    requires
        tree::is_tree(given.nodes),
        reached(given.nodes, at),
        defined_told(given, defined, places, at),
        scopes_told(given, defined.symbols, places, scopes),
        enclosed(given.nodes, places, lang_python::innermost(scopes), at),
        forall|symbol: SymbolShown|
            symbol.name == name && symbol.kind == KindShown::Known(kind)
                ==> #[trigger] definition_told(given, at, symbol),
    ensures
        defined.with_symbol(given, at, scopes, name, kind) matches Ok(next) ==> {
            let further = places.push(at);
            let count = defined.symbols.len();
            &&& next.scopes == defined.scopes
            &&& next.test_cases == defined.test_cases
            &&& next.symbols.len() == count + 1 <= u32::MAX + 1
            &&& begins(defined.symbols, next.symbols)
            &&& begins(places, further)
            &&& ascends(further)
            &&& forall|k: int| 0 <= k < further.len() ==> 0 <= #[trigger] further[k] < at + 1
            &&& forall|k: int|
                0 <= k < further.len() ==> #[trigger] symbol_told(given, next.symbols, further, k)
            &&& next.symbols[count as int].parent_id == lang_python::innermost(scopes)
            &&& next.symbols[count as int].kind == KindShown::Known(kind)
        },
{
    reveal(scopes_told);
    match defined.with_symbol(given, at, scopes, name, kind) {
        Err(_) => {},
        Ok(next) => {
            let further = places.push(at);
            let count = defined.symbols.len();
            let symbol = next.symbols.last();
            lemma_spans(given.nodes[at]);
            assert(next.symbols == defined.symbols.push(symbol));
            lemma_symbols_stay(given, defined.symbols, places, symbol, at);
            assert(definition_told(given, at, symbol));
            assert(symbol_told(given, next.symbols, further, count as int)) by {
                reveal(symbol_told);
                match symbol.parent_id {
                    Some(id) => {
                        assert(scopes[scopes.len() - 1] == scopes.last());
                        assert(further[id.0 as int] == places[id.0 as int]);
                        assert(next.symbols[id.0 as int] == defined.symbols[id.0 as int]);
                    },
                    None => {},
                }
            }
            assert forall|k: int| 0 <= k < further.len() implies #[trigger] symbol_told(
                given,
                next.symbols,
                further,
                k,
            ) by {
                if k < count {
                    assert(symbol_told(given, defined.symbols, places, k));
                }
            }
        },
    }
}

/// One more symbol that opens a scope is told.
proof fn lemma_scope_defined(
    given: Given,
    at: int,
    scopes: Seq<ActiveScope>,
    name: Seq<char>,
    kind: SymbolKind,
    defined: Defined,
    places: Seq<int>,
)
    requires
        tree::is_tree(given.nodes),
        reached(given.nodes, at),
        opens(given.nodes, at),
        defined_told(given, defined, places, at),
        scopes_told(given, defined.symbols, places, scopes),
        enclosed(given.nodes, places, lang_python::innermost(scopes), at),
        (kind == SymbolKind::Class) == (given.nodes[at].kind == "class_definition"@),
        forall|symbol: SymbolShown|
            symbol.name == name && symbol.kind == KindShown::Known(kind)
                ==> #[trigger] definition_told(given, at, symbol),
    ensures
        defined.with_scope(given, at, scopes, name, kind) matches Ok(next) ==> {
            let further = places.push(at);
            &&& defined_told(given, next.defined, further, at + 1)
            &&& begins(defined.symbols, next.defined.symbols)
            &&& begins(places, further)
            &&& next.scope is Some
            &&& scopes_told(
                given,
                next.defined.symbols,
                further,
                lang_python::opened(scopes, next.scope),
            )
            &&& inside(
                given.nodes,
                further,
                lang_python::innermost(lang_python::opened(scopes, next.scope)),
                at,
            )
        },
{
    reveal(scopes_told);
    let nodes = given.nodes;
    lemma_symbol_defined(given, at, scopes, name, kind, defined, places);
    match defined.with_scope(given, at, scopes, name, kind) {
        Err(_) => {},
        Ok(next) => {
            let further = places.push(at);
            let count = defined.symbols.len() as int;
            let index = at as usize;
            let scope = next.scope->0;
            assert(index == at);
            assert(scope.id.0 == count);
            assert(further[count] == at);
            assert forall|v: usize| #[trigger] next.defined.scopes.contains_key(v) <==> v < at + 1
                && scope_node(nodes)(v as int) by {
                if v != index {
                    assert(defined.scopes.contains_key(v) == next.defined.scopes.contains_key(v));
                }
            }
            assert forall|v: usize| #[trigger]
                next.defined.scopes.contains_key(v) implies scope_told(
                given,
                next.defined,
                further,
                v,
            ) by {
                if v != index {
                    assert(defined.scopes.contains_key(v));
                    assert(scope_told(given, defined, places, v));
                    assert(further[defined.scopes[v].id.0 as int]
                        == places[defined.scopes[v].id.0 as int]);
                }
            }
            let all = scopes.push(scope);
            lemma_scopes_stay(
                given,
                defined.symbols,
                places,
                next.defined.symbols,
                further,
                scopes,
            );
            assert(all.take(scopes.len() as int) =~= scopes);
            assert forall|i: int| 0 <= i < all.len() implies (#[trigger] all[i]).id.0
                < next.defined.symbols.len() && all[i].is_class == is_class(
                next.defined.symbols,
                Some(all[i].id),
            ) && all[i].is_class == (nodes[further[all[i].id.0 as int]].kind
                == "class_definition"@) by {
                if i < scopes.len() {
                    assert(all[i] == scopes[i]);
                }
            }
            assert forall|i: int| 0 <= i < all.len() implies next.defined.symbols[(
            #[trigger] all[i]).id.0 as int].parent_id == lang_python::innermost(all.take(i)) by {
                if i < scopes.len() {
                    assert(all[i] == scopes[i]);
                    assert(all.take(i) =~= scopes.take(i));
                }
            }
        },
    }
}

/// What a node defines is told.
proof fn lemma_node_defined(
    given: Given,
    at: int,
    scopes: Seq<ActiveScope>,
    defined: Defined,
    places: Seq<int>,
) -> (further: Seq<int>)
    requires
        tree::is_tree(given.nodes),
        reached(given.nodes, at),
        defined_told(given, defined, places, at),
        scopes_told(given, defined.symbols, places, scopes),
        enclosed(given.nodes, places, lang_python::innermost(scopes), at),
        cases_told(given, defined, places),
    ensures
        defined.with_node(
            given,
            at,
            tree::end_of(given.nodes, at),
            scopes,
        ) matches Ok(next) ==> {
            &&& defined_told(given, next.defined, further, at + 1)
            &&& cases_told(given, next.defined, further)
            &&& begins(defined.symbols, next.defined.symbols)
            &&& begins(places, further)
            &&& scopes_told(
                given,
                next.defined.symbols,
                further,
                lang_python::opened(scopes, next.scope),
            )
            &&& inside(
                given.nodes,
                further,
                lang_python::innermost(lang_python::opened(scopes, next.scope)),
                at,
            )
        },
{
    let nodes = given.nodes;
    let stop = tree::end_of(nodes, at);
    let kind = nodes[at].kind;
    lemma_kinds_differ();
    tree::lemma_child_with_field(nodes, at, "name"@);
    tree::lemma_child_with_field(nodes, at, "left"@);
    lemma_in_class(given, defined.symbols, places, scopes, at);
    if kind == "function_definition"@ || kind == "class_definition"@ {
        match given.field(at, stop, "name"@) {
            None => {
                assert(!opens(nodes, at)) by {
                    assert forall|c: int| !#[trigger] tree::first_child(
                        nodes,
                        at,
                        c,
                        tree::with_field("name"@),
                    ) by {}
                }
                lemma_flat(given, at, scopes, defined, places);
                places
            },
            Some(child) => {
                assert(opens(nodes, at));
                match given.text(child) {
                    Err(_) => places,
                    Ok(name) => {
                        let own = if kind == "class_definition"@ {
                            SymbolKind::Class
                        } else if scopes.len() > 0 && scopes.last().is_class {
                            SymbolKind::Method
                        } else {
                            SymbolKind::Function
                        };
                        assert(says(given, at, "name"@, name));
                        assert forall|symbol: SymbolShown|
                            symbol.name == name && symbol.kind == KindShown::Known(
                                own,
                            ) implies #[trigger] definition_told(given, at, symbol) by {}
                        lemma_scope_defined(given, at, scopes, name, own, defined, places);
                        match defined.with_node(given, at, stop, scopes) {
                            Err(_) => {},
                            Ok(next) => {
                                lemma_test_case(given, at);
                                if case_at(given, at) {
                                    lemma_one_case(given, defined, next.defined, places, at);
                                } else {
                                    lemma_no_case(given, defined, next.defined, places, at);
                                }
                            },
                        }
                        if kind == "class_definition"@ {
                            match defined.with_node(given, at, stop, scopes) {
                                Err(_) => {},
                                Ok(next) => {
                                    let opened = defined.with_scope(given, at, scopes, name, own)->Ok_0;
                                    lemma_same_definitions(
                                        given,
                                        opened.defined,
                                        next.defined,
                                        places.push(at),
                                        at + 1,
                                    );
                                },
                            }
                        }
                        places.push(at)
                    },
                }
            },
        }
    } else {
        assert(!opens(nodes, at));
        lemma_flat(given, at, scopes, defined, places);
        if kind == "assignment"@ {
            match defined.with_constant(given, at, stop, scopes) {
                Err(_) => places,
                Ok(next) => if next == defined {
                    places
                } else {
                    let left = given.field(at, stop, "left"@)->0;
                    let name = given.text(left)->Ok_0;
                    lemma_is_final(given, at);
                    assert(lang_python::is_constant_name(name) == constant_name(name));
                    assert(constant_said(given, at, name));
                    assert forall|symbol: SymbolShown|
                        symbol.name == name && symbol.kind == KindShown::Known(
                            SymbolKind::Constant,
                        ) implies #[trigger] definition_told(given, at, symbol) by {}
                    lemma_symbol_defined(
                        given,
                        at,
                        scopes,
                        name,
                        SymbolKind::Constant,
                        defined,
                        places,
                    );
                    let further = places.push(at);
                    lemma_no_case(given, defined, next, places, at);
                    lemma_scopes_stay(
                        given,
                        defined.symbols,
                        places,
                        next.symbols,
                        further,
                        scopes,
                    );
                    lemma_enclosed_stays(
                        nodes,
                        places,
                        further,
                        lang_python::innermost(scopes),
                        at,
                    );
                    assert forall|v: usize| #[trigger]
                        next.scopes.contains_key(v) implies scope_told(
                        given,
                        next,
                        further,
                        v,
                    ) by {
                        assert(defined.scopes.contains_key(v));
                        assert(scope_told(given, defined, places, v));
                        assert(further[defined.scopes[v].id.0 as int]
                            == places[defined.scopes[v].id.0 as int]);
                    }
                    further
                },
            }
        } else {
            places
        }
    }
}

proof fn lemma_enclosed_stays(
    nodes: Seq<NodeShown>,
    places: Seq<int>,
    further: Seq<int>,
    id: Option<ParsedSymbolId>,
    v: int,
)
    requires
        begins(places, further),
        enclosed(nodes, places, id, v),
    ensures
        enclosed(nodes, further, id, v),
{
}

/// The base classes from `at` on.
proof fn lemma_test_base(given: Given, u: int, at: int)
    requires
        tree::is_tree(given.nodes),
        0 <= u < given.nodes.len(),
        tree::at_child(given.nodes, u, at),
        forall|b: int| #[trigger]
            tree::child_of(given.nodes, u, b) && b < at ==> !is_test_base(given, b),
    ensures
        lang_python::has_test_base(
            given,
            at,
            tree::end_of(given.nodes, u),
        ) matches Ok(found) ==> found == (exists|b: int| #[trigger]
            tree::child_of(given.nodes, u, b) && is_test_base(given, b)),
    decreases tree::end_of(given.nodes, u) - at,
{
    let nodes = given.nodes;
    let stop = tree::end_of(nodes, u);
    if at < stop {
        let next = tree::end_of(nodes, at);
        tree::lemma_next_child(nodes, u, at);
        if is_test_base(given, at) {
            assert(tree::child_of(nodes, u, at));
        } else {
            assert forall|b: int| #[trigger] tree::child_of(nodes, u, b) && b < next implies
                !is_test_base(given, b) by {}
            lemma_test_base(given, u, next);
        }
    }
}

/// Whether a class is a test case.
proof fn lemma_test_case(given: Given, v: int)
    requires
        tree::is_tree(given.nodes),
        0 <= v < given.nodes.len(),
    ensures
        lang_python::is_test_case(given, v, tree::end_of(given.nodes, v)) matches Ok(found)
            ==> found == has_test_base(given, v),
{
    let nodes = given.nodes;
    let stop = tree::end_of(nodes, v);
    tree::lemma_child_with_field(nodes, v, "superclasses"@);
    match given.field(v, stop, "superclasses"@) {
        None => {
            assert forall|a: int| !#[trigger] tree::first_child(
                nodes,
                v,
                a,
                tree::with_field("superclasses"@),
            ) by {}
        },
        Some(a) => {
            tree::lemma_next_child(nodes, v, a);
            tree::lemma_end_inside(nodes, v);
            if a + 1 < tree::end_of(nodes, a) {
                tree::lemma_eldest(nodes, a);
            }
            lemma_test_base(given, a, a + 1);
            assert forall|c: int| #[trigger] tree::first_child(
                nodes,
                v,
                c,
                tree::with_field("superclasses"@),
            ) implies c == a by {}
        },
    }
}

/// The test cases with one more symbol that is none.
proof fn lemma_no_case(given: Given, defined: Defined, next: Defined, places: Seq<int>, at: int)
    requires
        cases_told(given, defined, places),
        places.len() <= u32::MAX,
        next.test_cases == defined.test_cases,
        !case_at(given, at),
    ensures
        cases_told(given, next, places.push(at)),
{
    let further = places.push(at);
    assert forall|k: int| 0 <= k < further.len() implies next.test_cases.contains(
        ParsedSymbolId(k as u32),
    ) == #[trigger] case_at(given, further[k]) by {
        if k < places.len() {
            assert(further[k] == places[k]);
            assert(case_at(given, places[k]) == case_at(given, further[k]));
        } else if next.test_cases.contains(ParsedSymbolId(k as u32)) {
            assert(false);
        }
    }
}

/// The test cases with one more symbol that is one.
proof fn lemma_one_case(given: Given, defined: Defined, next: Defined, places: Seq<int>, at: int)
    requires
        cases_told(given, defined, places),
        places.len() <= u32::MAX,
        next.test_cases == defined.test_cases.push(ParsedSymbolId(places.len() as u32)),
        case_at(given, at),
    ensures
        cases_told(given, next, places.push(at)),
{
    let further = places.push(at);
    let own = ParsedSymbolId(places.len() as u32);
    let before = defined.test_cases;
    let after = next.test_cases;
    assert forall|id: ParsedSymbolId| #[trigger] after.contains(id) == (before.contains(id) || id
        == own) by {
        if before.contains(id) {
            let i = choose|i: int| 0 <= i < before.len() && before[i] == id;
            assert(after[i] == id);
        }
        if id == own {
            assert(after[before.len() as int] == id);
        }
        if after.contains(id) {
            let i = choose|i: int| 0 <= i < after.len() && after[i] == id;
            if i < before.len() {
                assert(before[i] == id);
            }
        }
    }
    assert forall|k: int| 0 <= k < further.len() implies after.contains(
        ParsedSymbolId(k as u32),
    ) == #[trigger] case_at(given, further[k]) by {
        if k < places.len() {
            assert(further[k] == places[k]);
            assert(case_at(given, places[k]) == case_at(given, further[k]));
        }
    }
}

/// Nothing is defined by a node that opens no scope and is no constant.
proof fn lemma_flat(
    given: Given,
    at: int,
    scopes: Seq<ActiveScope>,
    defined: Defined,
    places: Seq<int>,
)
    requires
        defined_told(given, defined, places, at),
        !opens(given.nodes, at),
        enclosed(given.nodes, places, lang_python::innermost(scopes), at),
    ensures
        defined_told(given, defined, places, at + 1),
        inside(given.nodes, places, lang_python::innermost(scopes), at),
{
}

proof fn lemma_same_definitions(
    given: Given,
    first: Defined,
    second: Defined,
    places: Seq<int>,
    to: int,
)
    requires
        defined_told(given, first, places, to),
        first.symbols == second.symbols,
        first.scopes == second.scopes,
    ensures
        defined_told(given, second, places, to),
{
    assert forall|v: usize| #[trigger] second.scopes.contains_key(v) implies scope_told(
        given,
        second,
        places,
        v,
    ) by {
        assert(scope_told(given, first, places, v));
    }
}

proof fn lemma_final(annotation: Seq<char>)
    ensures
        lang_python::says_final(annotation) == declares_final(annotation),
{
    reveal_strlit("Final[");
    reveal_strlit(".Final");
    reveal_strlit(".Final[");
    let open = "Final["@;
    let end = ".Final"@;
    let both = ".Final["@;
    if text::starts_with(annotation, open) {
        assert(annotation =~= open + annotation.skip(open.len() as int));
    }
    if text::ends_with(annotation, end) {
        assert(annotation =~= annotation.take(annotation.len() - end.len()) + end);
    }
    if text::contains(annotation, both) {
        let at = choose|at: int| #[trigger] text::occurs_at(annotation, both, at);
        assert(annotation =~= annotation.take(at) + both + annotation.skip(at + both.len()));
    }
    if exists|rest: Seq<char>| annotation == #[trigger] (open + rest) {
        let rest = choose|rest: Seq<char>| annotation == #[trigger] (open + rest);
        assert(annotation.take(open.len() as int) =~= open);
        assert(text::starts_with(annotation, open));
    }
    if exists|front: Seq<char>| annotation == #[trigger] (front + end) {
        let front = choose|front: Seq<char>| annotation == #[trigger] (front + end);
        assert(annotation.skip(annotation.len() - end.len()) =~= end);
        assert(text::ends_with(annotation, end));
    }
    if exists|front: Seq<char>, rest: Seq<char>| annotation == #[trigger] (front + both + rest) {
        let (front, rest) = choose|front: Seq<char>, rest: Seq<char>|
            annotation == #[trigger] (front + both + rest);
        assert(annotation.subrange(
            front.len() as int,
            front.len() as int + both.len(),
        ) =~= both);
        assert(text::occurs_at(annotation, both, front.len() as int));
    }
}

/// Whether an assignment is declared final.
proof fn lemma_is_final(given: Given, v: int)
    requires
        tree::is_tree(given.nodes),
        0 <= v < given.nodes.len(),
    ensures
        lang_python::is_final(given, v, tree::end_of(given.nodes, v)) == final_told(given, v),
{
    let nodes = given.nodes;
    let stop = tree::end_of(nodes, v);
    tree::lemma_child_with_field(nodes, v, "type"@);
    match given.field(v, stop, "type"@) {
        None => {
            assert forall|c: int| !#[trigger] tree::first_child(
                nodes,
                v,
                c,
                tree::with_field("type"@),
            ) by {}
        },
        Some(a) => {
            match given.text(a) {
                Ok(found) => {
                    lemma_final(wrap::without_blanks(found));
                },
                Err(_) => {},
            }
            assert forall|c: int| #[trigger] tree::first_child(
                nodes,
                v,
                c,
                tree::with_field("type"@),
            ) implies c == a by {}
        },
    }
}

/// What is said of constants stays where no constant is assigned.
proof fn lemma_constants_kept(
    given: Given,
    defined: Defined,
    next: Defined,
    places: Seq<int>,
    further: Seq<int>,
    at: int,
    to: int,
)
    requires
        constants_told(given, defined.symbols, places, at),
        begins(defined.symbols, next.symbols),
        begins(places, further),
        forall|k: int|
            defined.symbols.len() <= k < next.symbols.len() ==> !is_constant(
                #[trigger] next.symbols[k],
            ),
        forall|v: int| at <= v < to ==> !#[trigger] constant_node(given, v),
    ensures
        constants_told(given, next.symbols, further, to),
{
    reveal(constants_told);
    assert forall|v: int| #[trigger] constant_node(given, v) && v < to implies exists|k: int|
        constant_for(given, next.symbols, further, k, v) by {
        let k = choose|k: int| constant_for(given, defined.symbols, places, k, v);
        lemma_enclosed_stays(given.nodes, places, further, defined.symbols[k].parent_id, v);
        assert(next.symbols[k] == defined.symbols[k]);
        assert(constant_for(given, next.symbols, further, k, v));
    }
    assert forall|i: int, j: int|
        0 <= i < j < next.symbols.len() && is_constant(#[trigger] next.symbols[i]) && is_constant(
            #[trigger] next.symbols[j],
        ) && next.symbols[i].parent_id == next.symbols[j].parent_id implies next.symbols[i].name
        != next.symbols[j].name by {
        assert(j < defined.symbols.len());
        assert(next.symbols[i] == defined.symbols[i] && next.symbols[j] == defined.symbols[j]);
    }
}

/// What is said of constants with the assignment of one, known or new.
proof fn lemma_constant_found(
    given: Given,
    defined: Defined,
    next: Defined,
    places: Seq<int>,
    further: Seq<int>,
    at: int,
    k: int,
)
    requires
        constants_told(given, defined.symbols, places, at),
        begins(defined.symbols, next.symbols),
        begins(places, further),
        constant_for(given, next.symbols, further, k, at),
        next.symbols.len() <= defined.symbols.len() + 1,
        next.symbols.len() == defined.symbols.len() + 1 ==> !lang_python::knows_constant(
            defined.symbols,
            next.symbols.last().parent_id,
            next.symbols.last().name,
        ),
    ensures
        constants_told(given, next.symbols, further, at + 1),
{
    reveal(constants_told);
    assert forall|v: int| #[trigger] constant_node(given, v) && v < at + 1 implies exists|k: int|
        constant_for(given, next.symbols, further, k, v) by {
        if v == at {
            assert(constant_for(given, next.symbols, further, k, v));
        } else {
            let k = choose|k: int| constant_for(given, defined.symbols, places, k, v);
            lemma_enclosed_stays(given.nodes, places, further, defined.symbols[k].parent_id, v);
            assert(next.symbols[k] == defined.symbols[k]);
            assert(constant_for(given, next.symbols, further, k, v));
        }
    }
    assert forall|i: int, j: int|
        0 <= i < j < next.symbols.len() && is_constant(#[trigger] next.symbols[i]) && is_constant(
            #[trigger] next.symbols[j],
        ) && next.symbols[i].parent_id == next.symbols[j].parent_id implies next.symbols[i].name
        != next.symbols[j].name by {
        assert(next.symbols[i] == defined.symbols[i]);
        if j < defined.symbols.len() {
            assert(next.symbols[j] == defined.symbols[j]);
        }
    }
}

/// What is said of constants with what a node defines.
proof fn lemma_node_constants(
    given: Given,
    at: int,
    scopes: Seq<ActiveScope>,
    defined: Defined,
    places: Seq<int>,
    further: Seq<int>,
)
    requires
        tree::is_tree(given.nodes),
        reached(given.nodes, at),
        scopes_told(given, defined.symbols, places, scopes),
        enclosed(given.nodes, places, lang_python::innermost(scopes), at),
        constants_told(given, defined.symbols, places, at),
        defined.with_node(given, at, tree::end_of(given.nodes, at), scopes) matches Ok(next) && {
            &&& begins(defined.symbols, next.defined.symbols)
            &&& begins(places, further)
        },
    ensures
        constants_told(
            given,
            defined.with_node(
                given,
                at,
                tree::end_of(given.nodes, at),
                scopes,
            )->Ok_0.defined.symbols,
            further,
            at + 1,
        ),
{
    let nodes = given.nodes;
    let stop = tree::end_of(nodes, at);
    let kind = nodes[at].kind;
    let next = defined.with_node(given, at, stop, scopes)->Ok_0.defined;
    lemma_kinds_differ();
    lemma_in_class(given, defined.symbols, places, scopes, at);
    lemma_is_final(given, at);
    tree::lemma_child_with_field(nodes, at, "left"@);
    if kind == "assignment"@ {
        match given.field(at, stop, "left"@) {
            None => {
                assert(!constant_node(given, at)) by {
                    assert forall|c: int| !#[trigger] tree::first_child(
                        nodes,
                        at,
                        c,
                        tree::with_field("left"@),
                    ) by {}
                }
                lemma_constants_kept(given, defined, next, places, further, at, at + 1);
            },
            Some(left) => {
                assert forall|c: int| #[trigger] tree::first_child(
                    nodes,
                    at,
                    c,
                    tree::with_field("left"@),
                ) implies c == left by {}
                if constant_node(given, at) {
                    let name = choose|name: Seq<char>| #[trigger] constant_said(given, at, name);
                    let id = lang_python::innermost(scopes);
                    assert(given.text(left) == Ok::<Seq<char>, Seq<char>>(name));
                    assert(lang_python::is_constant_name(name) == constant_name(name));
                    lemma_enclosed_stays(nodes, places, further, id, at);
                    if lang_python::knows_constant(defined.symbols, id, name) {
                        let k = choose|k: int|
                            #![trigger defined.symbols[k]]
                            0 <= k < defined.symbols.len() && defined.symbols[k].kind
                                == KindShown::Known(SymbolKind::Constant)
                                && defined.symbols[k].parent_id == id && defined.symbols[k].name
                                == name;
                        assert(constant_for(given, next.symbols, further, k, at));
                        lemma_constant_found(given, defined, next, places, further, at, k);
                    } else {
                        let k = defined.symbols.len() as int;
                        assert(constant_for(given, next.symbols, further, k, at));
                        lemma_constant_found(given, defined, next, places, further, at, k);
                    }
                } else {
                    match given.text(left) {
                        Ok(name) => {
                            assert(lang_python::is_constant_name(name) == constant_name(name));
                            if in_module_or_class(nodes, at) && nodes[left].kind
                                == "identifier"@ {
                                assert(!constant_said(given, at, name));
                            }
                        },
                        Err(_) => {},
                    }
                    assert(next == defined);
                    lemma_constants_kept(given, defined, next, places, further, at, at + 1);
                }
            },
        }
    } else {
        lemma_constants_kept(given, defined, next, places, further, at, at + 1);
    }
}

/// What a node and all below it define is told.
proof fn lemma_defined(
    given: Given,
    at: int,
    scopes: Seq<ActiveScope>,
    defined: Defined,
    places: Seq<int>,
) -> (further: Seq<int>)
    requires
        tree::is_tree(given.nodes),
        reached(given.nodes, at),
        defined_told(given, defined, places, at),
        scopes_told(given, defined.symbols, places, scopes),
        enclosed(given.nodes, places, lang_python::innermost(scopes), at),
        cases_told(given, defined, places),
        constants_told(given, defined.symbols, places, at),
    ensures
        lang_python::defined_by(
            given,
            at,
            tree::end_of(given.nodes, at),
            scopes,
            defined,
        ) matches Ok(seen) ==> {
            &&& defined_told(given, seen, further, tree::end_of(given.nodes, at))
            &&& cases_told(given, seen, further)
            &&& constants_told(given, seen.symbols, further, tree::end_of(given.nodes, at))
            &&& begins(defined.symbols, seen.symbols)
            &&& begins(places, further)
        },
    decreases tree::end_of(given.nodes, at) - at, 0int,
{
    let nodes = given.nodes;
    let stop = tree::end_of(nodes, at);
    tree::lemma_end_inside(nodes, at);
    let step = lemma_node_defined(given, at, scopes, defined, places);
    match defined.with_node(given, at, stop, scopes) {
        Err(_) => places,
        Ok(next) => {
            lemma_node_constants(given, at, scopes, defined, places, step);
            assert(tree::at_child(nodes, at, at + 1)) by {
                if at + 1 < stop {
                    tree::lemma_eldest(nodes, at);
                }
            }
            let opened = lang_python::opened(scopes, next.scope);
            let further = lemma_defined_below(given, at, at + 1, opened, next.defined, step);
            match lang_python::defined_below(given, at + 1, stop, opened, next.defined) {
                Err(_) => {},
                Ok(seen) => {
                    lemma_begins(defined.symbols, next.defined.symbols, seen.symbols);
                    lemma_begins(places, step, further);
                },
            }
            further
        },
    }
}

/// What the children of the node at `u` from `at` on define is told.
proof fn lemma_defined_below(
    given: Given,
    u: int,
    at: int,
    scopes: Seq<ActiveScope>,
    defined: Defined,
    places: Seq<int>,
) -> (further: Seq<int>)
    requires
        tree::is_tree(given.nodes),
        reached(given.nodes, u),
        u < at,
        tree::at_child(given.nodes, u, at),
        defined_told(given, defined, places, at),
        scopes_told(given, defined.symbols, places, scopes),
        inside(given.nodes, places, lang_python::innermost(scopes), u),
        cases_told(given, defined, places),
        constants_told(given, defined.symbols, places, at),
    ensures
        lang_python::defined_below(
            given,
            at,
            tree::end_of(given.nodes, u),
            scopes,
            defined,
        ) matches Ok(seen) ==> {
            &&& defined_told(given, seen, further, tree::end_of(given.nodes, u))
            &&& cases_told(given, seen, further)
            &&& constants_told(given, seen.symbols, further, tree::end_of(given.nodes, u))
            &&& begins(defined.symbols, seen.symbols)
            &&& begins(places, further)
        },
    decreases tree::end_of(given.nodes, u) - at, 1int,
{
    let nodes = given.nodes;
    let stop = tree::end_of(nodes, u);
    if at >= stop {
        places
    } else {
        let after = tree::end_of(nodes, at);
        tree::lemma_next_child(nodes, u, at);
        lemma_child_reached(nodes, u, at);
        if !nodes[at].named {
            lemma_unreached(nodes, at);
            assert(defined_told(given, defined, places, after)) by {
                assert forall|v: usize| #[trigger] defined.scopes.contains_key(v) <==> v < after
                    && scope_node(nodes)(v as int) by {
                    if at <= v < after {
                        assert(!reached(nodes, v as int));
                    }
                }
            }
            lemma_constants_kept(given, defined, defined, places, places, at, after);
            lemma_defined_below(given, u, after, scopes, defined, places)
        } else {
            lemma_child_enclosed(nodes, places, lang_python::innermost(scopes), u, at);
            let step = lemma_defined(given, at, scopes, defined, places);
            match lang_python::defined_by(given, at, after, scopes, defined) {
                Err(_) => places,
                Ok(seen) => {
                    lemma_scopes_stay(
                        given,
                        defined.symbols,
                        places,
                        seen.symbols,
                        step,
                        scopes,
                    );
                    assert(inside(nodes, step, lang_python::innermost(scopes), u));
                    let further = lemma_defined_below(given, u, after, scopes, seen, step);
                    match lang_python::defined_below(given, after, stop, scopes, seen) {
                        Err(_) => {},
                        Ok(all) => {
                            lemma_begins(defined.symbols, seen.symbols, all.symbols);
                            lemma_begins(places, step, further);
                        },
                    }
                    further
                },
            }
        }
    }
}

/// The latest symbol with a name.
proof fn lemma_last_symbol(
    symbols: Seq<SymbolShown>,
    name: Seq<char>,
    place: Option<ParsedSymbolId>,
    callable: bool,
)
    requires
        forall|i: int| 0 <= i < symbols.len() ==> (#[trigger] symbols[i]).local_id.0 == i,
    ensures
        match lang_python::last_symbol(symbols, name, place, callable) {
            Some(id) => latest(symbols, name, place, callable, id.0 as int),
            None => unknown(symbols, name, place, callable),
        },
    decreases symbols.len(),
{
    if symbols.len() > 0 {
        let rest = symbols.drop_last();
        let last = symbols.len() - 1;
        assert forall|i: int| 0 <= i < rest.len() implies (#[trigger] rest[i]).local_id.0 == i by {
            assert(rest[i] == symbols[i]);
        }
        lemma_last_symbol(rest, name, place, callable);
        assert(symbols[last] == symbols.last());
        if !answers(symbols[last], name, place, callable) {
            match lang_python::last_symbol(rest, name, place, callable) {
                Some(id) => {
                    assert(symbols[id.0 as int] == rest[id.0 as int]);
                    assert forall|j: int| id.0 < j < symbols.len() implies !answers(
                        #[trigger] symbols[j],
                        name,
                        place,
                        callable,
                    ) by {
                        if j < last {
                            assert(rest[j] == symbols[j]);
                        }
                    }
                },
                None => {
                    assert forall|j: int| 0 <= j < symbols.len() implies !answers(
                        #[trigger] symbols[j],
                        name,
                        place,
                        callable,
                    ) by {
                        if j < last {
                            assert(rest[j] == symbols[j]);
                        }
                    }
                },
            }
        }
    }
}

/// Whether the symbols are numbered, each behind the one around it.
spec fn in_order(symbols: Seq<SymbolShown>) -> bool {
    forall|k: int|
        0 <= k < symbols.len() ==> (#[trigger] symbols[k]).local_id.0 == k && (
        symbols[k].parent_id is Some ==> (symbols[k].parent_id->0).0 < k)
}

/// Scopes as the places in which a name is looked up.
proof fn lemma_line(
    given: Given,
    symbols: Seq<SymbolShown>,
    places: Seq<int>,
    scopes: Seq<ActiveScope>,
)
    requires
        in_order(symbols),
        scopes_told(given, symbols, places, scopes),
    ensures
        ({
            let line = lineage(symbols, lang_python::innermost(scopes));
            &&& line.len() == scopes.len() + 1
            &&& line[scopes.len() as int] is None
            &&& forall|i: int|
                0 <= i < scopes.len() ==> #[trigger] line[i] == Some(
                    scopes[scopes.len() - 1 - i].id,
                )
        }),
    decreases scopes.len(),
{
    reveal(scopes_told);
    if scopes.len() > 0 {
        let rest = scopes.take(scopes.len() - 1);
        let last = scopes.len() - 1;
        assert(scopes[last] == scopes.last());
        assert(symbols[scopes[last].id.0 as int].parent_id == lang_python::innermost(rest));
        assert forall|i: int| 0 <= i < rest.len() implies (#[trigger] rest[i]).id.0
            < symbols.len() && rest[i].is_class == is_class(symbols, Some(rest[i].id))
            && rest[i].is_class == (given.nodes[places[rest[i].id.0 as int]].kind
            == "class_definition"@) by {
            assert(rest[i] == scopes[i]);
        }
        assert forall|i: int| 0 <= i < rest.len() implies symbols[(
        #[trigger] rest[i]).id.0 as int].parent_id == lang_python::innermost(rest.take(i)) by {
            assert(rest[i] == scopes[i]);
            assert(rest.take(i) =~= scopes.take(i));
        }
        lemma_line(given, symbols, places, rest);
        let line = lineage(symbols, lang_python::innermost(scopes));
        let shorter = lineage(symbols, lang_python::innermost(rest));
        assert(line =~= seq![lang_python::innermost(scopes)] + shorter);
        assert forall|i: int| 0 <= i < scopes.len() implies #[trigger] line[i] == Some(
            scopes[scopes.len() - 1 - i].id,
        ) by {
            if i > 0 {
                assert(line[i] == shorter[i - 1]);
                assert(rest[rest.len() - 1 - (i - 1)] == scopes[scopes.len() - 1 - i]);
            }
        }
    }
}

/// Whether a function is among the scopes from `count` on.
spec fn crossed(scopes: Seq<ActiveScope>, count: int) -> bool {
    exists|i: int| count <= i < scopes.len() && !(#[trigger] scopes[i]).is_class
}

/// Whether no visible place from `first` on and before `stop` has a symbol with a name.
spec fn unseen(
    symbols: Seq<SymbolShown>,
    line: Seq<Option<ParsedSymbolId>>,
    name: Seq<char>,
    callable: bool,
    first: int,
    stop: int,
) -> bool {
    forall|j: int| #[trigger]
        visible(symbols, line, j) && first <= j < stop ==> unknown(symbols, name, line[j], callable)
}

/// Whether the place at `i` is the nearest visible one from `first` on that has a symbol
/// with a name, the latest of which is the one at `t`.
spec fn nearest(
    symbols: Seq<SymbolShown>,
    line: Seq<Option<ParsedSymbolId>>,
    name: Seq<char>,
    callable: bool,
    first: int,
    i: int,
    t: int,
) -> bool {
    &&& first <= i
    &&& visible(symbols, line, i)
    &&& latest(symbols, name, line[i], callable, t)
    &&& unseen(symbols, line, name, callable, first, i)
}

proof fn lemma_scope_classes(
    given: Given,
    symbols: Seq<SymbolShown>,
    places: Seq<int>,
    scopes: Seq<ActiveScope>,
)
    requires
        scopes_told(given, symbols, places, scopes),
    ensures
        forall|i: int|
            0 <= i < scopes.len() ==> (#[trigger] scopes[i]).is_class == is_class(
                symbols,
                Some(scopes[i].id),
            ),
{
    reveal(scopes_told);
}

/// Whether the innermost of the first `count` scopes is visible.
proof fn lemma_scope_visible(
    given: Given,
    symbols: Seq<SymbolShown>,
    places: Seq<int>,
    scopes: Seq<ActiveScope>,
    count: int,
)
    requires
        in_order(symbols),
        scopes_told(given, symbols, places, scopes),
        0 <= count <= scopes.len(),
    ensures
        ({
            let line = lineage(symbols, lang_python::innermost(scopes));
            let first = scopes.len() - count;
            &&& line.len() == scopes.len() + 1
            &&& count == 0 ==> line[first] is None && visible(symbols, line, first)
            &&& count > 0 ==> {
                let scope = scopes[count - 1];
                &&& line[first] == Some(scope.id)
                &&& visible(symbols, line, first) == (!scope.is_class || !crossed(scopes, count))
                &&& crossed(scopes, count - 1) == (crossed(scopes, count) || !scope.is_class)
            }
        }),
{
    lemma_scope_classes(given, symbols, places, scopes);
    let line = lineage(symbols, lang_python::innermost(scopes));
    let first = scopes.len() - count;
    let size = scopes.len() as int;
    lemma_line(given, symbols, places, scopes);
    if count > 0 {
        let scope = scopes[count - 1];
        assert(crossed(scopes, count - 1) == (crossed(scopes, count) || !scope.is_class)) by {
            if crossed(scopes, count) {
                let i = choose|i: int| count <= i < scopes.len() && !(#[trigger] scopes[i]).is_class;
                assert(count - 1 <= i);
            }
            if !scope.is_class {
                assert(!scopes[count - 1].is_class);
            }
        }
        assert(line[first] == Some(scope.id));
        assert(is_class(symbols, line[first]) == scope.is_class);
        if scope.is_class {
            if crossed(scopes, count) {
                let i = choose|i: int| count <= i < scopes.len() && !(#[trigger] scopes[i]).is_class;
                let j = size - 1 - i;
                assert(line[j] == Some(scopes[size - 1 - j].id));
                assert(!is_class(symbols, line[j]));
            } else {
                assert forall|j: int| 0 <= j < first implies is_class(
                    symbols,
                    #[trigger] line[j],
                ) by {
                    assert(line[j] == Some(scopes[size - 1 - j].id));
                    assert(scopes[size - 1 - j].is_class);
                }
            }
        }
    }
}

/// What a name means in the first `count` scopes.
proof fn lemma_resolved(
    given: Given,
    symbols: Seq<SymbolShown>,
    places: Seq<int>,
    scopes: Seq<ActiveScope>,
    name: Seq<char>,
    count: int,
    callable: bool,
)
    requires
        in_order(symbols),
        scopes_told(given, symbols, places, scopes),
        0 <= count <= scopes.len(),
    ensures
        ({
            let line = lineage(symbols, lang_python::innermost(scopes));
            let first = scopes.len() - count;
            match lang_python::resolved(
                symbols,
                name,
                scopes.take(count),
                crossed(scopes, count),
                callable,
            ) {
                Some(id) => exists|i: int| #[trigger]
                    nearest(symbols, line, name, callable, first, i, id.0 as int),
                None => unseen(symbols, line, name, callable, first, line.len() as int),
            }
        }),
    decreases count,
{
    let line = lineage(symbols, lang_python::innermost(scopes));
    let first = scopes.len() - count;
    lemma_scope_visible(given, symbols, places, scopes, count);
    if count == 0 {
        lemma_last_symbol(symbols, name, None, callable);
        assert(scopes.take(count).len() == 0);
        match lang_python::last_symbol(symbols, name, None, callable) {
            Some(id) => {
                assert(nearest(symbols, line, name, callable, first, first, id.0 as int));
            },
            None => {},
        }
    } else {
        let scope = scopes[count - 1];
        let own = Some(scope.id);
        let shorter = scopes.take(count - 1);
        assert(scopes.take(count).last() == scope);
        assert(scopes.take(count).drop_last() =~= shorter);
        lemma_last_symbol(symbols, name, own, callable);
        lemma_resolved(given, symbols, places, scopes, name, count - 1, callable);
        let found = lang_python::last_symbol(symbols, name, own, callable);
        if visible(symbols, line, first) && found is Some {
            assert(nearest(
                symbols,
                line,
                name,
                callable,
                first,
                first,
                (found->0).0 as int,
            ));
        } else {
            match lang_python::resolved(
                symbols,
                name,
                shorter,
                crossed(scopes, count - 1),
                callable,
            ) {
                Some(id) => {
                    let i = choose|i: int| #[trigger]
                        nearest(symbols, line, name, callable, first + 1, i, id.0 as int);
                    assert(nearest(symbols, line, name, callable, first, i, id.0 as int));
                },
                None => {},
            }
        }
    }
}

/// What a node names is told.
proof fn lemma_target(
    given: Given,
    symbols: Seq<SymbolShown>,
    places: Seq<int>,
    scopes: Seq<ActiveScope>,
    at: int,
    stop: int,
    callable: bool,
) -> (name: Seq<char>)
    requires
        in_order(symbols),
        scopes_told(given, symbols, places, scopes),
    ensures
        lang_python::target_of(given, at, stop, symbols, scopes, callable) matches Ok(target) ==> {
            &&& is_plain(given.nodes, at) ==> exists|written: Seq<char>|
                given.text(at) == Ok::<Seq<char>, Seq<char>>(written) && name
                    == #[trigger] text::trim(written)
            &&& target_told(
                symbols,
                lang_python::innermost(scopes),
                name,
                callable,
                is_plain(given.nodes, at),
                target,
            )
        },
{
    reveal_strlit("identifier");
    reveal_strlit("attribute");
    assert("identifier"@.len() == 10 && "attribute"@.len() == 9);
    let from = lang_python::innermost(scopes);
    let line = lineage(symbols, from);
    match lang_python::reference_name(given, at, stop) {
        Err(_) => Seq::empty(),
        Ok(name) => {
            let size = scopes.len() as int;
            assert(scopes.take(size) =~= scopes);
            assert(!crossed(scopes, size));
            lemma_resolved(given, symbols, places, scopes, name, size, callable);
            match lang_python::resolved(symbols, name, scopes, false, callable) {
                Some(id) => {
                    let i = choose|i: int| #[trigger]
                        nearest(symbols, line, name, callable, 0, i, id.0 as int);
                    assert(visible(symbols, line, i));
                    assert(means(symbols, from, name, callable, id.0 as int));
                },
                None => {
                    assert forall|t: int| !#[trigger] means(symbols, from, name, callable, t) by {
                        if means(symbols, from, name, callable, t) {
                            let i = choose|i: int|
                                {
                                    &&& #[trigger] visible(symbols, line, i)
                                    &&& latest(symbols, name, line[i], callable, t)
                                    &&& forall|j: int| #[trigger]
                                        visible(symbols, line, j) && j < i ==> unknown(
                                            symbols,
                                            name,
                                            line[j],
                                            callable,
                                        )
                                };
                            assert(unknown(symbols, name, line[i], callable));
                            assert(answers(symbols[t], name, line[i], callable));
                        }
                    }
                },
            }
            if is_plain(given.nodes, at) {
                let written = given.text(at)->Ok_0;
                assert(name == text::trim(written));
            }
            name
        },
    }
}

/// Whether a reference leads to what its name means from its source.
#[verifier::opaque]
pub open spec fn reference_told(
    given: Given,
    symbols: Seq<SymbolShown>,
    reference: ReferenceShown,
) -> bool {
    exists|v: int, name: Seq<char>|
        {
            &&& #[trigger] spans(given.nodes[v], reference.span)
            &&& is_plain(given.nodes, v) ==> exists|written: Seq<char>|
                given.text(v) == Ok::<Seq<char>, Seq<char>>(written) && name
                    == #[trigger] text::trim(written)
            &&& #[trigger] target_told(
                symbols,
                reference.source_id,
                name,
                false,
                is_plain(given.nodes, v),
                reference.target,
            )
        }
}

spec fn references_told(given: Given, symbols: Seq<SymbolShown>, references: Seq<ReferenceShown>) -> bool {
    forall|k: int|
        0 <= k < references.len() ==> reference_told(given, symbols, #[trigger] references[k])
}

/// A reference keeps the other records and is told.
proof fn lemma_reference(
    given: Given,
    symbols: Seq<SymbolShown>,
    places: Seq<int>,
    scopes: Seq<ActiveScope>,
    at: int,
    stop: int,
    kind: ReferenceKind,
    records: Records,
)
    requires
        in_order(symbols),
        scopes_told(given, symbols, places, scopes),
        references_told(given, symbols, records.references),
    ensures
        records.with_reference(given, at, stop, symbols, scopes, kind) matches Ok(next) ==> {
            &&& next.calls == records.calls
            &&& next.imports == records.imports
            &&& next.entry_points == records.entry_points
            &&& references_told(given, symbols, next.references)
        },
{
    lemma_spans(given.nodes[at]);
    let name = lemma_target(given, symbols, places, scopes, at, stop, false);
    match records.with_reference(given, at, stop, symbols, scopes, kind) {
        Err(_) => {},
        Ok(next) => {
            let reference = next.references.last();
            assert(next.references == records.references.push(reference));
            assert(reference_told(given, symbols, reference)) by {
                reveal(reference_told);
                assert(spans(given.nodes[at], reference.span));
                assert(target_told(
                    symbols,
                    reference.source_id,
                    name,
                    false,
                    is_plain(given.nodes, at),
                    reference.target,
                ));
            }
        },
    }
}

proof fn lemma_bases(
    given: Given,
    symbols: Seq<SymbolShown>,
    places: Seq<int>,
    scopes: Seq<ActiveScope>,
    at: int,
    stop: int,
    records: Records,
)
    requires
        in_order(symbols),
        scopes_told(given, symbols, places, scopes),
        references_told(given, symbols, records.references),
    ensures
        records.with_bases(given, at, stop, symbols, scopes) matches Ok(next) ==> {
            &&& next.calls == records.calls
            &&& next.imports == records.imports
            &&& next.entry_points == records.entry_points
            &&& references_told(given, symbols, next.references)
        },
    decreases stop - at,
{
    if at < stop {
        let next = given.end(at, stop);
        if !given.nodes[at].named || given.is(at, "keyword_argument"@) {
            lemma_bases(given, symbols, places, scopes, next, stop, records);
        } else {
            let base = lang_python::base_node(given, at, next);
            let kind = ReferenceKind::Inheritance;
            lemma_reference(given, symbols, places, scopes, base.0, base.1, kind, records);
            match records.with_reference(given, base.0, base.1, symbols, scopes, kind) {
                Err(_) => {},
                Ok(more) => {
                    lemma_bases(given, symbols, places, scopes, next, stop, more);
                },
            }
        }
    }
}

proof fn lemma_annotation(
    given: Given,
    symbols: Seq<SymbolShown>,
    places: Seq<int>,
    scopes: Seq<ActiveScope>,
    at: int,
    stop: int,
    records: Records,
)
    requires
        in_order(symbols),
        scopes_told(given, symbols, places, scopes),
        references_told(given, symbols, records.references),
    ensures
        records.with_annotation(given, at, stop, symbols, scopes) matches Ok(next) ==> {
            &&& next.calls == records.calls
            &&& next.imports == records.imports
            &&& next.entry_points == records.entry_points
            &&& references_told(given, symbols, next.references)
        },
    decreases stop - at, 0int,
{
    if at < stop {
        lemma_reference(given, symbols, places, scopes, at, stop, ReferenceKind::Type, records);
        lemma_annotations(given, symbols, places, scopes, at + 1, stop, records);
    }
}

proof fn lemma_annotations(
    given: Given,
    symbols: Seq<SymbolShown>,
    places: Seq<int>,
    scopes: Seq<ActiveScope>,
    at: int,
    stop: int,
    records: Records,
)
    requires
        in_order(symbols),
        scopes_told(given, symbols, places, scopes),
        references_told(given, symbols, records.references),
    ensures
        records.with_annotations(given, at, stop, symbols, scopes) matches Ok(next) ==> {
            &&& next.calls == records.calls
            &&& next.imports == records.imports
            &&& next.entry_points == records.entry_points
            &&& references_told(given, symbols, next.references)
        },
    decreases stop - at, 1int,
{
    if at < stop {
        let next = given.end(at, stop);
        if !given.nodes[at].named {
            lemma_annotations(given, symbols, places, scopes, next, stop, records);
        } else {
            lemma_annotation(given, symbols, places, scopes, at, next, records);
            match records.with_annotation(given, at, next, symbols, scopes) {
                Err(_) => {},
                Ok(more) => {
                    lemma_annotations(given, symbols, places, scopes, next, stop, more);
                },
            }
        }
    }
}

proof fn lemma_items(given: Given, at: int, stop: int, module: Option<Seq<char>>, records: Records)
    ensures
        records.with_items(given, at, stop, module) matches Ok(next) ==> {
            &&& next.calls == records.calls
            &&& next.references == records.references
            &&& next.entry_points == records.entry_points
        },
    decreases stop - at,
{
    if at < stop {
        let next = given.end(at, stop);
        if !syntax::has_field(given.nodes[at], "name"@) {
            lemma_items(given, next, stop, module, records);
        } else {
            match records.with_item(given, at, next, module) {
                Err(_) => {},
                Ok(more) => {
                    lemma_items(given, next, stop, module, more);
                },
            }
        }
    }
}

proof fn lemma_wildcard(given: Given, at: int, stop: int, module: Seq<char>, records: Records)
    ensures
        records.with_wildcard(given, at, stop, module) matches Ok(next) ==> {
            &&& next.calls == records.calls
            &&& next.references == records.references
            &&& next.entry_points == records.entry_points
        },
    decreases stop - at,
{
    if at < stop && !(given.is(at, "*"@) || given.is(at, "wildcard_import"@)) {
        lemma_wildcard(given, given.end(at, stop), stop, module, records);
    }
}

/// Whether records tell the nodes before `to`.
spec fn records_told(
    given: Given,
    symbols: Seq<SymbolShown>,
    places: Seq<int>,
    records: Records,
    calls: Seq<int>,
    to: int,
) -> bool {
    &&& calls.len() == records.calls.len()
    &&& tree::lists(calls, call_node(given.nodes), to)
    &&& forall|k: int|
        0 <= k < calls.len() ==> call_told(
            given,
            symbols,
            places,
            #[trigger] records.calls[k],
            calls[k],
        )
    &&& references_told(given, symbols, records.references)
}

/// The innermost function or class around a node has one ID.
proof fn lemma_same_enclosure(
    nodes: Seq<NodeShown>,
    places: Seq<int>,
    first: Option<ParsedSymbolId>,
    second: Option<ParsedSymbolId>,
    v: int,
)
    requires
        ascends(places),
        enclosed(nodes, places, first, v),
        enclosed(nodes, places, second, v),
    ensures
        first == second,
{
    match (first, second) {
        (Some(a), Some(b)) => {
            lemma_one_owner(nodes, places[a.0 as int], places[b.0 as int], v);
            if a.0 < b.0 {
                assert(places[a.0 as int] < places[b.0 as int]);
            } else if b.0 < a.0 {
                assert(places[b.0 as int] < places[a.0 as int]);
            }
        },
        (Some(a), None) => {
            assert(tree::below(nodes, places[a.0 as int], v));
        },
        (None, Some(b)) => {
            assert(tree::below(nodes, places[b.0 as int], v));
        },
        (None, None) => {},
    }
}

/// The scopes inside a node.
proof fn lemma_opened(
    given: Given,
    defined: Defined,
    places: Seq<int>,
    scopes: Seq<ActiveScope>,
    at: int,
)
    requires
        tree::is_tree(given.nodes),
        reached(given.nodes, at),
        defined_told(given, defined, places, given.nodes.len() as int),
        scopes_told(given, defined.symbols, places, scopes),
        enclosed(given.nodes, places, lang_python::innermost(scopes), at),
    ensures
        ({
            let opened = lang_python::opened(scopes, lang_python::scope_at(defined, at));
            &&& scopes_told(given, defined.symbols, places, opened)
            &&& inside(given.nodes, places, lang_python::innermost(opened), at)
            &&& !opens(given.nodes, at) ==> opened == scopes
        }),
{
    reveal(scopes_told);
    let nodes = given.nodes;
    let index = at as usize;
    assert(index == at);
    assert(defined.scopes.contains_key(index) == opens(nodes, at));
    if opens(nodes, at) {
        let scope = defined.scopes[index];
        let all = scopes.push(scope);
        let k = scope.id.0 as int;
        assert(scope_told(given, defined, places, index));
        assert(symbol_told(given, defined.symbols, places, k));
        reveal(symbol_told);
        lemma_kinds_differ();
        assert(scope.is_class == is_class(defined.symbols, Some(scope.id)));
        lemma_same_enclosure(
            nodes,
            places,
            defined.symbols[k].parent_id,
            lang_python::innermost(scopes),
            at,
        );
        assert(all.take(scopes.len() as int) =~= scopes);
        assert forall|i: int| 0 <= i < all.len() implies (#[trigger] all[i]).id.0
            < defined.symbols.len() && all[i].is_class == is_class(
            defined.symbols,
            Some(all[i].id),
        ) && all[i].is_class == (nodes[places[all[i].id.0 as int]].kind
            == "class_definition"@) by {
            if i < scopes.len() {
                assert(all[i] == scopes[i]);
            }
        }
        assert forall|i: int| 0 <= i < all.len() implies defined.symbols[(
        #[trigger] all[i]).id.0 as int].parent_id == lang_python::innermost(all.take(i)) by {
            if i < scopes.len() {
                assert(all[i] == scopes[i]);
                assert(all.take(i) =~= scopes.take(i));
            }
        }
    }
}

/// What a node itself is, is told.
proof fn lemma_node_recorded(
    given: Given,
    symbols: Seq<SymbolShown>,
    places: Seq<int>,
    scopes: Seq<ActiveScope>,
    at: int,
    records: Records,
    calls: Seq<int>,
)
    requires
        tree::is_tree(given.nodes),
        reached(given.nodes, at),
        in_order(symbols),
        scopes_told(given, symbols, places, scopes),
        inside(given.nodes, places, lang_python::innermost(scopes), at),
        records_told(given, symbols, places, records, calls, at),
    ensures
        records.with_node(
            given,
            at,
            tree::end_of(given.nodes, at),
            symbols,
            scopes,
        ) matches Ok(next) ==> records_told(
            given,
            symbols,
            places,
            next,
            tree::with_place(calls, call_node(given.nodes), at),
            at + 1,
        ),
{
    let nodes = given.nodes;
    let stop = tree::end_of(nodes, at);
    let further = tree::with_place(calls, call_node(nodes), at);
    tree::lemma_lists_step(calls, call_node(nodes), at);
    lemma_kinds_differ();
    if nodes[at].kind == "call"@ {
        assert(!opens(nodes, at));
        tree::lemma_child_with_field(nodes, at, "function"@);
        match given.field(at, stop, "function"@) {
            None => {},
            Some(function) => {
                assert(tree::child_of(nodes, at, function));
                assert(!tree::no_child(nodes, at, tree::with_field("function"@)));
                assert(further == calls.push(at));
                lemma_spans(nodes[at]);
                let name = lemma_target(
                    given,
                    symbols,
                    places,
                    scopes,
                    function,
                    given.end(function, stop),
                    true,
                );
                match records.with_call(given, at, stop, symbols, scopes) {
                    Err(_) => {},
                    Ok(next) => {
                        let call = next.calls.last();
                        assert(next.calls == records.calls.push(call));
                        assert(call_told(given, symbols, places, call, at)) by {
                            reveal(call_told);
                            assert(tree::first_child(
                                nodes,
                                at,
                                function,
                                tree::with_field("function"@),
                            ));
                            assert(target_told(
                                symbols,
                                call.caller_id,
                                name,
                                true,
                                is_plain(nodes, function),
                                call.target,
                            ));
                        }
                    },
                }
            },
        }
    } else {
        lemma_items(given, at + 1, stop, None, records);
        lemma_items(given, at + 1, stop, Some("__future__"@), records);
        match given.field(at, stop, "module_name"@) {
            Some(child) => match given.text(child) {
                Ok(module) => {
                    lemma_items(given, at + 1, stop, Some(module), records);
                    lemma_wildcard(given, at + 1, stop, module, records);
                },
                Err(_) => {},
            },
            None => {},
        }
        match given.field(at, stop, "superclasses"@) {
            Some(arguments) => {
                lemma_bases(
                    given,
                    symbols,
                    places,
                    scopes,
                    arguments + 1,
                    given.end(arguments, stop),
                    records,
                );
            },
            None => {},
        }
    }
}

/// What is recorded of a node and all below it is told.
proof fn lemma_recorded(
    given: Given,
    defined: Defined,
    places: Seq<int>,
    scopes: Seq<ActiveScope>,
    at: int,
    records: Records,
    calls: Seq<int>,
) -> (further: Seq<int>)
    requires
        tree::is_tree(given.nodes),
        reached(given.nodes, at),
        in_order(defined.symbols),
        defined_told(given, defined, places, given.nodes.len() as int),
        scopes_told(given, defined.symbols, places, scopes),
        enclosed(given.nodes, places, lang_python::innermost(scopes), at),
        records_told(given, defined.symbols, places, records, calls, at),
    ensures
        lang_python::recorded(
            given,
            at,
            tree::end_of(given.nodes, at),
            defined,
            scopes,
            records,
        ) matches Ok(seen) ==> records_told(
            given,
            defined.symbols,
            places,
            seen,
            further,
            tree::end_of(given.nodes, at),
        ),
    decreases tree::end_of(given.nodes, at) - at, 0int,
{
    let nodes = given.nodes;
    let stop = tree::end_of(nodes, at);
    tree::lemma_end_inside(nodes, at);
    let opened = lang_python::opened(scopes, lang_python::scope_at(defined, at));
    lemma_opened(given, defined, places, scopes, at);
    lemma_node_recorded(given, defined.symbols, places, opened, at, records, calls);
    match records.with_node(given, at, stop, defined.symbols, opened) {
        Err(_) => calls,
        Ok(next) => {
            assert(tree::at_child(nodes, at, at + 1)) by {
                if at + 1 < stop {
                    tree::lemma_eldest(nodes, at);
                }
            }
            lemma_recorded_below(
                given,
                defined,
                places,
                opened,
                at,
                at + 1,
                next,
                tree::with_place(calls, call_node(nodes), at),
            )
        },
    }
}

/// What is recorded of the children of the node at `u` from `at` on is told.
proof fn lemma_recorded_below(
    given: Given,
    defined: Defined,
    places: Seq<int>,
    scopes: Seq<ActiveScope>,
    u: int,
    at: int,
    records: Records,
    calls: Seq<int>,
) -> (further: Seq<int>)
    requires
        tree::is_tree(given.nodes),
        reached(given.nodes, u),
        u < at,
        tree::at_child(given.nodes, u, at),
        in_order(defined.symbols),
        defined_told(given, defined, places, given.nodes.len() as int),
        scopes_told(given, defined.symbols, places, scopes),
        inside(given.nodes, places, lang_python::innermost(scopes), u),
        records_told(given, defined.symbols, places, records, calls, at),
    ensures
        lang_python::recorded_below(
            given,
            at,
            tree::end_of(given.nodes, u),
            defined,
            scopes,
            records,
        ) matches Ok(seen) ==> records_told(
            given,
            defined.symbols,
            places,
            seen,
            further,
            tree::end_of(given.nodes, u),
        ),
    decreases tree::end_of(given.nodes, u) - at, 1int,
{
    let nodes = given.nodes;
    let stop = tree::end_of(nodes, u);
    if at >= stop {
        calls
    } else {
        let after = tree::end_of(nodes, at);
        tree::lemma_next_child(nodes, u, at);
        lemma_child_reached(nodes, u, at);
        if !nodes[at].named {
            lemma_unreached(nodes, at);
            tree::lemma_lists_skip(calls, call_node(nodes), at, after);
            lemma_recorded_below(given, defined, places, scopes, u, after, records, calls)
        } else {
            lemma_child_enclosed(nodes, places, lang_python::innermost(scopes), u, at);
            lemma_annotation(given, defined.symbols, places, scopes, at, after, records);
            let annotated = if syntax::has_field(nodes[at], "type"@) || syntax::has_field(
                nodes[at],
                "return_type"@,
            ) {
                records.with_annotation(given, at, after, defined.symbols, scopes)
            } else {
                Ok(records)
            };
            match annotated {
                Err(_) => calls,
                Ok(typed) => {
                    let step = lemma_recorded(given, defined, places, scopes, at, typed, calls);
                    match lang_python::recorded(given, at, after, defined, scopes, typed) {
                        Err(_) => calls,
                        Ok(seen) => lemma_recorded_below(
                            given,
                            defined,
                            places,
                            scopes,
                            u,
                            after,
                            seen,
                            step,
                        ),
                    }
                },
            }
        }
    }
}

/// Whether a range starts before another, or starts with it and ends before it.
pub open spec fn earlier(
    left: ((u32, u32), (u32, u32)),
    right: ((u32, u32), (u32, u32)),
) -> bool {
    ||| left.0.0 < right.0.0
    ||| left.0.0 == right.0.0 && left.0.1 < right.0.1
    ||| left.0 == right.0 && left.1.0 < right.1.0
    ||| left.0 == right.0 && left.1.0 == right.1.0 && left.1.1 < right.1.1
}

/// Whether the records of a file are those of its tree: every function and every class
/// with a name has a symbol, and so has every constant, once in its scope; every symbol
/// tells its place; every call has a place and
/// every place of a call has a call; and calls and references stand in the order of
/// their ranges.
pub open spec fn read(given: Given, file: FileShown, places: Seq<int>, calls: Seq<int>) -> bool {
    let nodes = given.nodes;
    &&& places.len() == file.symbols.len()
    &&& ascends(places)
    &&& forall|v: int|
        0 <= v < nodes.len() && #[trigger] scope_node(nodes)(v) ==> places.contains(v)
    &&& forall|k: int|
        0 <= k < places.len() ==> #[trigger] symbol_told(given, file.symbols, places, k)
    &&& constants_told(given, file.symbols, places, nodes.len() as int)
    &&& calls.len() == file.calls.len()
    &&& tree::lists(calls, call_node(nodes), nodes.len() as int)
    &&& forall|k: int|
        0 <= k < file.calls.len() ==> call_placed(
            given,
            file.symbols,
            places,
            calls,
            #[trigger] file.calls[k],
        )
    &&& forall|i: int|
        0 <= i < calls.len() ==> place_called(
            given,
            file.symbols,
            places,
            #[trigger] calls[i],
            file.calls,
        )
    &&& forall|i: int, j: int|
        0 <= i < j < file.calls.len() ==> !earlier(
            (#[trigger] file.calls[j]).span,
            (#[trigger] file.calls[i]).span,
        )
    &&& forall|k: int|
        0 <= k < file.references.len() ==> reference_told(
            given,
            file.symbols,
            #[trigger] file.references[k],
        )
    &&& forall|i: int, j: int|
        0 <= i < j < file.references.len() ==> !earlier(
            (#[trigger] file.references[j]).span,
            (#[trigger] file.references[i]).span,
        )
}

/// Whether a call tells one of the places.
#[verifier::opaque]
pub open spec fn call_placed(
    given: Given,
    symbols: Seq<SymbolShown>,
    places: Seq<int>,
    calls: Seq<int>,
    call: CallShown,
) -> bool {
    exists|i: int|
        0 <= i < calls.len() && call_told(given, symbols, places, call, #[trigger] calls[i])
}

/// Whether one of the calls tells a place.
#[verifier::opaque]
pub open spec fn place_called(
    given: Given,
    symbols: Seq<SymbolShown>,
    places: Seq<int>,
    v: int,
    calls: Seq<CallShown>,
) -> bool {
    exists|k: int|
        0 <= k < calls.len() && call_told(given, symbols, places, #[trigger] calls[k], v)
}

proof fn lemma_orders()
    ensures
        sort::weak_order(lang_python::call_order()),
        sort::weak_order(lang_python::reference_order()),
        forall|left: CallShown, right: CallShown| #[trigger]
            lang_python::call_order()(left, right) == earlier(left.span, right.span),
        forall|left: ReferenceShown, right: ReferenceShown| #[trigger]
            lang_python::reference_order()(left, right) == earlier(left.span, right.span),
{
}

/// The records of a Python file are those of its syntax tree. In particular the target
/// of a call whose function is a plain name is the latest function, method or class of
/// that name in the nearest visible place that has one, where the places are the
/// innermost function or class around the call, the one around that, and so on to the
/// module, and a class is not visible from a function in it.
pub proof fn law_python_records_tell_the_tree(
    path: RepositoryPath,
    source: Seq<char>,
    nodes: Seq<NodeShown>,
) -> (found: (Seq<int>, Seq<int>))
    requires
        tree::is_tree(nodes),
        lang_python::extracted(path, source, nodes) is Ok,
    ensures
        ({
            let file = lang_python::extracted(path, source, nodes)->Ok_0;
            file.module is Some && read(
                Given { nodes, source, module: (file.module->0).qualified_name },
                file,
                found.0,
                found.1,
            )
        }),
{
    let file = lang_python::extracted(path, source, nodes)->Ok_0;
    let names = lang_python::module_names(path@)->Ok_0;
    let given = Given { nodes, source, module: names.1 };
    let nothing = Defined {
        symbols: Seq::empty(),
        scopes: Map::empty(),
        test_cases: Seq::empty(),
    };
    let start = Records {
        imports: Seq::empty(),
        references: Seq::empty(),
        calls: Seq::empty(),
        entry_points: Seq::empty(),
    };
    let stop = nodes.len() as int;
    let none = Seq::<ActiveScope>::empty();
    assert(scopes_told(given, nothing.symbols, Seq::empty(), none)) by {
        reveal(scopes_told);
    }
    assert(reached(nodes, 0));
    assert(defined_told(given, nothing, Seq::empty(), 0));
    assert(constants_told(given, nothing.symbols, Seq::empty(), 0)) by {
        reveal(constants_told);
    }
    let places = lemma_defined(given, 0, none, nothing, Seq::empty());
    let defined = lang_python::defined_by(given, 0, stop, none, nothing)->Ok_0;
    assert(in_order(defined.symbols)) by {
        assert forall|k: int| 0 <= k < defined.symbols.len() implies (
        #[trigger] defined.symbols[k]).local_id.0 == k && (defined.symbols[k].parent_id is Some
            ==> (defined.symbols[k].parent_id->0).0 < k) by {
            reveal(symbol_told);
            assert(symbol_told(given, defined.symbols, places, k));
        }
    }
    assert(scopes_told(given, defined.symbols, places, none)) by {
        reveal(scopes_told);
    }
    assert(records_told(given, defined.symbols, places, start, Seq::empty(), 0));
    let calls = lemma_recorded(given, defined, places, none, 0, start, Seq::empty());
    let records = lang_python::recorded(given, 0, stop, defined, none, start)->Ok_0;
    assert(records_told(given, defined.symbols, places, records, calls, stop));
    assert forall|v: int| 0 <= v < nodes.len() && #[trigger] scope_node(
        nodes,
    )(v) implies places.contains(v) by {
        let index = v as usize;
        assert(index == v);
        assert(defined.scopes.contains_key(index));
        assert(scope_told(given, defined, places, index));
        assert(places[defined.scopes[index].id.0 as int] == v);
    }
    lemma_calls_sorted(given, defined.symbols, places, records, calls, stop);
    lemma_orders();
    sort::law_sorted_by(records.references, lang_python::reference_order());
    let told = |reference: ReferenceShown| reference_told(given, defined.symbols, reference);
    sort::lemma_sorted_by_keeps(records.references, lang_python::reference_order(), told);
    assert forall|k: int| 0 <= k < file.references.len() implies reference_told(
        given,
        file.symbols,
        #[trigger] file.references[k],
    ) by {
        assert(told(file.references[k]));
    }
    (places, calls)
}

/// The calls of a file in order.
proof fn lemma_calls_sorted(
    given: Given,
    symbols: Seq<SymbolShown>,
    places: Seq<int>,
    records: Records,
    calls: Seq<int>,
    stop: int,
)
    requires
        records_told(given, symbols, places, records, calls, stop),
    ensures
        ({
            let sorted = sort::stable_sorted_by(records.calls, lang_python::call_order());
            &&& sorted.len() == calls.len()
            &&& forall|k: int|
                0 <= k < sorted.len() ==> call_placed(
                    given,
                    symbols,
                    places,
                    calls,
                    #[trigger] sorted[k],
                )
            &&& forall|i: int|
                0 <= i < calls.len() ==> place_called(
                    given,
                    symbols,
                    places,
                    #[trigger] calls[i],
                    sorted,
                )
            &&& forall|i: int, j: int|
                0 <= i < j < sorted.len() ==> !earlier(
                    (#[trigger] sorted[j]).span,
                    (#[trigger] sorted[i]).span,
                )
        }),
{
    let sorted = sort::stable_sorted_by(records.calls, lang_python::call_order());
    lemma_orders();
    sort::law_sorted_by(records.calls, lang_python::call_order());
    let placed = |call: CallShown| call_placed(given, symbols, places, calls, call);
    assert forall|k: int| 0 <= k < records.calls.len() implies placed(
        #[trigger] records.calls[k],
    ) by {
        reveal(call_placed);
        assert(call_told(given, symbols, places, records.calls[k], calls[k]));
    }
    sort::lemma_sorted_by_keeps(records.calls, lang_python::call_order(), placed);
    assert forall|k: int| 0 <= k < sorted.len() implies call_placed(
        given,
        symbols,
        places,
        calls,
        #[trigger] sorted[k],
    ) by {
        assert(placed(sorted[k]));
    }
    canonical::lemma_same_members(records.calls, sorted);
    assert forall|i: int| 0 <= i < calls.len() implies place_called(
        given,
        symbols,
        places,
        #[trigger] calls[i],
        sorted,
    ) by {
        reveal(place_called);
        let call = records.calls[i];
        assert(records.calls.contains(call));
        assert(sorted.contains(call));
        let k = choose|k: int| 0 <= k < sorted.len() && sorted[k] == call;
        assert(call_told(given, symbols, places, sorted[k], calls[i]));
    }
}

/// A character so many times.
pub open spec fn row(c: char, count: nat) -> Seq<char> {
    Seq::new(count, |i: int| c)
}

/// The four ways to ask whether a file is run by itself.
pub open spec fn asks_for_main(s: Seq<char>) -> bool {
    ||| s == "__name__==\"__main__\""@
    ||| s == "__name__=='__main__'"@
    ||| s == "\"__main__\"==__name__"@
    ||| s == "'__main__'==__name__"@
}

/// Whether a condition, without blanks, asks whether a file is run by itself, with any
/// number of parentheses around it.
pub open spec fn guards_main(compact: Seq<char>) -> bool {
    exists|count: nat, core: Seq<char>| #[trigger]
        wrapped(core, count) == compact && asks_for_main(core)
}

pub open spec fn wrapped(core: Seq<char>, count: nat) -> Seq<char> {
    row('(', count) + core + row(')', count)
}

proof fn lemma_cores(core: Seq<char>)
    requires
        asks_for_main(core),
    ensures
        core.len() > 0,
        core[0] != '(',
{
    reveal_strlit("__name__==\"__main__\"");
    reveal_strlit("__name__=='__main__'");
    reveal_strlit("\"__main__\"==__name__");
    reveal_strlit("'__main__'==__name__");
}

proof fn lemma_guards_main(s: Seq<char>)
    ensures
        lang_python::is_main_condition(s) == guards_main(s),
    decreases s.len(),
{
    if s.len() >= 2 && s[0] == '(' && s.last() == ')' {
        let inner = s.subrange(1, s.len() - 1);
        lemma_guards_main(inner);
        if guards_main(inner) {
            let (count, core) = choose|count: nat, core: Seq<char>| #[trigger]
                wrapped(core, count) == inner && asks_for_main(core);
            assert(wrapped(core, count + 1) =~= s) by {
                assert(s =~= seq!['('] + inner + seq![')']);
            }
        }
        if guards_main(s) {
            let (count, core) = choose|count: nat, core: Seq<char>| #[trigger]
                wrapped(core, count) == s && asks_for_main(core);
            lemma_cores(core);
            if count == 0 {
                assert(wrapped(core, count) =~= core);
            }
            let fewer = (count - 1) as nat;
            assert(inner =~= wrapped(core, fewer)) by {
                assert(inner.len() == wrapped(core, fewer).len());
                assert forall|i: int| 0 <= i < inner.len() implies inner[i] == wrapped(
                    core,
                    fewer,
                )[i] by {
                    assert(inner[i] == wrapped(core, count)[i + 1]);
                }
            }
        }
    } else {
        if lang_python::is_main_condition(s) {
            assert(wrapped(s, 0) =~= s);
        }
        if guards_main(s) {
            let (count, core) = choose|count: nat, core: Seq<char>| #[trigger]
                wrapped(core, count) == s && asks_for_main(core);
            lemma_cores(core);
            if count > 0 {
                assert(wrapped(core, count)[0] == '(');
                assert(wrapped(core, count).last() == ')');
            }
            assert(wrapped(core, 0) =~= core);
        }
    }
}

/// Whether a node asks, outside all functions and classes, whether the file is run by
/// itself.
pub open spec fn guard_node(given: Given) -> spec_fn(int) -> bool {
    |v: int|
        {
            &&& reached(given.nodes, v)
            &&& given.nodes[v].kind == "if_statement"@
            &&& forall|u: int| #[trigger] tree::below(given.nodes, u, v) ==> !opens(given.nodes, u)
            &&& exists|written: Seq<char>|
                says(given, v, "condition"@, written) && guards_main(
                    #[trigger] wrap::without_blanks(written),
                )
        }
}

/// Whether an entry point is that of a node that asks for it.
pub open spec fn guard_told(given: Given, entry: EntryShown, v: int) -> bool {
    &&& entry.kind == EntryPointKind::Executable
    &&& entry.label == "Python __main__ guard"@
    &&& entry.symbol_id is None
    &&& spans(given.nodes[v], entry.span)
}

/// Whether a module is what the items of an import are imported from.
pub open spec fn from_module(given: Given, p: int, module: Option<Seq<char>>) -> bool {
    let kind = given.nodes[p].kind;
    match module {
        None => kind == "import_statement"@,
        Some(module) => (kind == "future_import_statement"@ && module == "__future__"@) || (kind
            == "import_from_statement"@ && says(given, p, "module_name"@, module)),
    }
}

/// The target of an item: what is imported from a module stands behind its name and a
/// dot, unless the name ends with one.
pub open spec fn target_in(module: Option<Seq<char>>, name: Seq<char>) -> Seq<char> {
    match module {
        None => name,
        Some(module) => if module.len() > 0 && module.last() == '.' {
            module + name
        } else {
            module + "."@ + name
        },
    }
}

pub open spec fn is_star() -> spec_fn(NodeShown) -> bool {
    |node: NodeShown| node.kind == "*"@ || node.kind == "wildcard_import"@
}

/// Whether the node at `u` is an item that the import at `p` imports: a child with the
/// role of a name, or the star of an import without names.
pub open spec fn item_of(given: Given, p: int, u: int) -> bool {
    let nodes = given.nodes;
    ||| {
        &&& nodes[p].kind == "import_statement"@ || nodes[p].kind == "future_import_statement"@ || (
        nodes[p].kind == "import_from_statement"@ && !tree::no_child(
            nodes,
            p,
            tree::with_field("module_name"@),
        ))
        &&& tree::child_of(nodes, p, u)
        &&& nodes[u].field == Some("name"@)
    }
    ||| {
        &&& nodes[p].kind == "import_from_statement"@
        &&& !tree::no_child(nodes, p, tree::with_field("module_name"@))
        &&& tree::no_child(nodes, p, tree::with_field("name"@))
        &&& tree::first_child(nodes, p, u, is_star())
    }
}

/// Whether a name and an alias are those of an item.
pub open spec fn item_named(
    given: Given,
    u: int,
    name: Seq<char>,
    alias: Option<Seq<char>>,
) -> bool {
    let nodes = given.nodes;
    if is_star()(nodes[u]) && nodes[u].field != Some("name"@) {
        name == "*"@ && alias is None
    } else if nodes[u].kind == "aliased_import"@ && !tree::no_child(
        nodes,
        u,
        tree::with_field("name"@),
    ) {
        &&& says(given, u, "name"@, name)
        &&& match alias {
            Some(alias) => says(given, u, "alias"@, alias),
            None => tree::no_child(nodes, u, tree::with_field("alias"@)),
        }
    } else {
        given.text(u) == Ok::<Seq<char>, Seq<char>>(name) && alias is None
    }
}

/// Whether an import tells an item of the import at `p`.
#[verifier::opaque]
pub open spec fn import_told(given: Given, import: ImportShown, p: int, u: int) -> bool {
    &&& reached(given.nodes, p)
    &&& item_of(given, p, u)
    &&& spans(given.nodes[u], import.span)
    &&& exists|module: Option<Seq<char>>, name: Seq<char>|
        {
            &&& #[trigger] from_module(given, p, module)
            &&& #[trigger] item_named(given, u, name, import.alias)
            &&& import.target == target_in(module, name)
        }
}

/// Whether one of the imports tells an item.
#[verifier::opaque]
pub open spec fn item_imported(
    given: Given,
    imports: Seq<ImportShown>,
    p: int,
    u: int,
) -> bool {
    exists|k: int| 0 <= k < imports.len() && import_told(given, #[trigger] imports[k], p, u)
}

/// Whether an import tells an item.
#[verifier::opaque]
pub open spec fn import_placed(given: Given, import: ImportShown) -> bool {
    exists|p: int, u: int| #[trigger] import_told(given, import, p, u)
}

spec fn imports_placed(given: Given, imports: Seq<ImportShown>) -> bool {
    forall|k: int| 0 <= k < imports.len() ==> import_placed(given, #[trigger] imports[k])
}

/// Whether all items of the imports before `to` are imported.
spec fn items_imported(given: Given, imports: Seq<ImportShown>, to: int) -> bool {
    forall|p: int, u: int|
        0 <= p < to && reached(given.nodes, p) && #[trigger] item_of(given, p, u)
            ==> item_imported(given, imports, p, u)
}

/// What is imported stays imported.
proof fn lemma_imports_grow(
    given: Given,
    before: Seq<ImportShown>,
    after: Seq<ImportShown>,
    to: int,
)
    requires
        begins(before, after),
        items_imported(given, before, to),
    ensures
        items_imported(given, after, to),
{
    assert forall|p: int, u: int|
        0 <= p < to && reached(given.nodes, p) && #[trigger] item_of(
            given,
            p,
            u,
        ) implies item_imported(given, after, p, u) by {
        lemma_item_stays(given, before, after, p, u);
    }
}

proof fn lemma_item_stays(
    given: Given,
    before: Seq<ImportShown>,
    after: Seq<ImportShown>,
    p: int,
    u: int,
)
    requires
        begins(before, after),
        item_imported(given, before, p, u),
    ensures
        item_imported(given, after, p, u),
{
    reveal(item_imported);
    let k = choose|k: int|
        0 <= k < before.len() && import_told(given, #[trigger] before[k], p, u);
    assert(after[k] == before[k]);
}

/// One more import is told.
proof fn lemma_import_added(given: Given, imports: Seq<ImportShown>, import: ImportShown, p: int, u: int)
    requires
        imports_placed(given, imports),
        import_told(given, import, p, u),
    ensures
        imports_placed(given, imports.push(import)),
        item_imported(given, imports.push(import), p, u),
        begins(imports, imports.push(import)),
{
    let after = imports.push(import);
    assert(import_placed(given, import)) by {
        reveal(import_placed);
    }
    assert(item_imported(given, after, p, u)) by {
        reveal(item_imported);
        assert(import_told(given, after[imports.len() as int], p, u));
    }
}

/// An item is told.
proof fn lemma_item_told(
    given: Given,
    p: int,
    at: int,
    module: Option<Seq<char>>,
    records: Records,
)
    requires
        tree::is_tree(given.nodes),
        reached(given.nodes, p),
        item_of(given, p, at),
        tree::child_of(given.nodes, p, at),
        given.nodes[at].field == Some("name"@),
        from_module(given, p, module),
    ensures
        records.with_item(given, at, tree::end_of(given.nodes, at), module) matches Ok(next) ==> {
            &&& next.imports.len() == records.imports.len() + 1
            &&& next.imports == records.imports.push(next.imports.last())
            &&& import_told(given, next.imports.last(), p, at)
            &&& next.entry_points == records.entry_points
            &&& next.references == records.references
        },
{
    let nodes = given.nodes;
    let stop = tree::end_of(nodes, at);
    tree::lemma_end_inside(nodes, p);
    tree::lemma_child_with_field(nodes, at, "name"@);
    tree::lemma_child_with_field(nodes, at, "alias"@);
    lemma_spans(nodes[at]);
    match records.with_item(given, at, stop, module) {
        Err(_) => {},
        Ok(next) => {
            let item = lang_python::import_item(given, at, stop)->Ok_0;
            let import = next.imports.last();
            let name = given.field(at, stop, "name"@);
            if name is Some {
                assert(tree::child_of(nodes, at, name->0));
            }
            assert(item_named(given, at, item.0, import.alias));
            assert(import_told(given, import, p, at)) by {
                reveal(import_told);
            }
        },
    }
}

proof fn lemma_items_told(
    given: Given,
    p: int,
    at: int,
    module: Option<Seq<char>>,
    records: Records,
)
    requires
        tree::is_tree(given.nodes),
        reached(given.nodes, p),
        tree::at_child(given.nodes, p, at),
        from_module(given, p, module),
        given.nodes[p].kind == "import_from_statement"@ ==> !tree::no_child(
            given.nodes,
            p,
            tree::with_field("module_name"@),
        ),
        imports_placed(given, records.imports),
        forall|u: int| #[trigger]
            tree::child_of(given.nodes, p, u) && u < at && given.nodes[u].field == Some("name"@)
                ==> item_imported(given, records.imports, p, u),
    ensures
        records.with_items(given, at, tree::end_of(given.nodes, p), module) matches Ok(next) ==> {
            &&& imports_placed(given, next.imports)
            &&& begins(records.imports, next.imports)
            &&& next.entry_points == records.entry_points
            &&& next.references == records.references
            &&& forall|u: int| #[trigger]
                tree::child_of(given.nodes, p, u) && given.nodes[u].field == Some("name"@)
                    ==> item_imported(given, next.imports, p, u)
        },
    decreases tree::end_of(given.nodes, p) - at,
{
    let nodes = given.nodes;
    let stop = tree::end_of(nodes, p);
    if at < stop {
        let after = tree::end_of(nodes, at);
        tree::lemma_next_child(nodes, p, at);
        if !syntax::has_field(nodes[at], "name"@) {
            lemma_items_told(given, p, after, module, records);
        } else {
            assert(item_of(given, p, at));
            lemma_item_told(given, p, at, module, records);
            match records.with_item(given, at, after, module) {
                Err(_) => {},
                Ok(more) => {
                    lemma_import_added(given, records.imports, more.imports.last(), p, at);
                    assert forall|u: int| #[trigger]
                        tree::child_of(nodes, p, u) && u < after && nodes[u].field == Some(
                            "name"@,
                        ) implies item_imported(given, more.imports, p, u) by {
                        if u < at {
                            lemma_item_stays(given, records.imports, more.imports, p, u);
                        }
                    }
                    lemma_items_told(given, p, after, module, more);
                    match records.with_items(given, at, stop, module) {
                        Err(_) => {},
                        Ok(all) => {
                            lemma_begins(records.imports, more.imports, all.imports);
                        },
                    }
                },
            }
        }
    } else {
        assert forall|u: int| #[trigger]
            tree::child_of(nodes, p, u) && nodes[u].field == Some("name"@) implies item_imported(
            given,
            records.imports,
            p,
            u,
        ) by {}
    }
}

proof fn lemma_wildcard_told(given: Given, p: int, at: int, module: Seq<char>, records: Records)
    requires
        tree::is_tree(given.nodes),
        reached(given.nodes, p),
        tree::at_child(given.nodes, p, at),
        given.nodes[p].kind == "import_from_statement"@,
        from_module(given, p, Some(module)),
        !tree::no_child(given.nodes, p, tree::with_field("module_name"@)),
        tree::no_child(given.nodes, p, tree::with_field("name"@)),
        imports_placed(given, records.imports),
        forall|u: int| #[trigger]
            tree::child_of(given.nodes, p, u) && u < at ==> !is_star()(given.nodes[u]),
    ensures
        records.with_wildcard(
            given,
            at,
            tree::end_of(given.nodes, p),
            module,
        ) matches Ok(next) ==> {
            &&& imports_placed(given, next.imports)
            &&& begins(records.imports, next.imports)
            &&& next.entry_points == records.entry_points
            &&& next.references == records.references
            &&& forall|u: int| #[trigger]
                tree::first_child(given.nodes, p, u, is_star()) ==> item_imported(
                    given,
                    next.imports,
                    p,
                    u,
                )
        },
    decreases tree::end_of(given.nodes, p) - at,
{
    let nodes = given.nodes;
    let stop = tree::end_of(nodes, p);
    if at < stop {
        let after = tree::end_of(nodes, at);
        tree::lemma_next_child(nodes, p, at);
        if is_star()(nodes[at]) {
            lemma_spans(nodes[at]);
            match records.with_wildcard(given, at, stop, module) {
                Err(_) => {},
                Ok(next) => {
                    let import = next.imports.last();
                    assert(next.imports == records.imports.push(import));
                    assert(tree::first_child(nodes, p, at, is_star()));
                    assert(!tree::with_field("name"@)(nodes[at]));
                    assert(item_named(given, at, "*"@, None));
                    assert(import.target == target_in(Some(module), "*"@));
                    assert(import_told(given, import, p, at)) by {
                        reveal(import_told);
                        assert(from_module(given, p, Some(module)));
                    }
                    lemma_import_added(given, records.imports, import, p, at);
                    assert forall|u: int| #[trigger] tree::first_child(
                        nodes,
                        p,
                        u,
                        is_star(),
                    ) implies u == at by {
                        if u > at {
                            assert(tree::child_of(nodes, p, at));
                        }
                    }
                },
            }
        } else {
            assert forall|u: int| #[trigger] tree::child_of(nodes, p, u) && u < after implies
                !is_star()(nodes[u]) by {}
            lemma_wildcard_told(given, p, after, module, records);
        }
    } else {
        assert forall|u: int| !#[trigger] tree::first_child(nodes, p, u, is_star()) by {}
    }
}

/// Whether imports and main guards tell the nodes before `to`.
spec fn marks_told(
    given: Given,
    symbols: Seq<SymbolShown>,
    records: Records,
    guards: Seq<int>,
    to: int,
) -> bool {
    &&& guards.len() == records.entry_points.len()
    &&& tree::lists(guards, guard_node(given), to)
    &&& forall|k: int|
        0 <= k < guards.len() ==> guard_told(given, #[trigger] records.entry_points[k], guards[k])
    &&& imports_placed(given, records.imports)
    &&& items_imported(given, records.imports, to)
    &&& references_told(given, symbols, records.references)
}

/// The kinds of imports are told apart.
proof fn lemma_import_kinds()
    ensures
        "import_statement"@ != "import_from_statement"@,
        "import_statement"@ != "future_import_statement"@,
        "import_from_statement"@ != "future_import_statement"@,
        "if_statement"@ != "import_statement"@,
        "if_statement"@ != "import_from_statement"@,
        "if_statement"@ != "future_import_statement"@,
        "class_definition"@ != "import_statement"@,
        "class_definition"@ != "import_from_statement"@,
        "class_definition"@ != "future_import_statement"@,
        "if_statement"@ != "class_definition"@,
        "if_statement"@ != "function_definition"@,
{
    reveal_strlit("import_statement");
    reveal_strlit("import_from_statement");
    reveal_strlit("future_import_statement");
    reveal_strlit("if_statement");
    reveal_strlit("class_definition");
    reveal_strlit("function_definition");
    assert("import_statement"@.len() == 16 && "import_from_statement"@.len() == 21);
    assert("future_import_statement"@.len() == 23 && "if_statement"@.len() == 12);
    assert("class_definition"@.len() == 16 && "function_definition"@.len() == 19);
    assert("class_definition"@[0] == 'c' && "import_statement"@[0] == 'i');
}

/// The items of an import are told.
proof fn lemma_import_marked(given: Given, at: int, records: Records)
    requires
        tree::is_tree(given.nodes),
        reached(given.nodes, at),
        imports_placed(given, records.imports),
        given.nodes[at].kind == "import_statement"@ || given.nodes[at].kind
            == "import_from_statement"@ || given.nodes[at].kind == "future_import_statement"@,
    ensures
        ({
            let stop = tree::end_of(given.nodes, at);
            let outcome = if given.nodes[at].kind == "import_statement"@ {
                records.with_items(given, at + 1, stop, None)
            } else if given.nodes[at].kind == "import_from_statement"@ {
                records.with_from_import(given, at, stop)
            } else {
                records.with_items(given, at + 1, stop, Some("__future__"@))
            };
            outcome matches Ok(next) ==> {
                &&& imports_placed(given, next.imports)
                &&& begins(records.imports, next.imports)
                &&& next.entry_points == records.entry_points
                &&& next.references == records.references
                &&& forall|u: int| #[trigger]
                    item_of(given, at, u) ==> item_imported(given, next.imports, at, u)
            }
        }),
{
    let nodes = given.nodes;
    let stop = tree::end_of(nodes, at);
    lemma_import_kinds();
    tree::lemma_end_inside(nodes, at);
    if at + 1 < stop {
        tree::lemma_eldest(nodes, at);
    }
    assert(tree::at_child(nodes, at, at + 1));
    assert forall|u: int| tree::child_of(nodes, at, u) implies u >= at + 1 by {}
    if nodes[at].kind == "import_from_statement"@ {
        tree::lemma_child_with_field(nodes, at, "module_name"@);
        tree::lemma_child_with_field(nodes, at, "name"@);
        match given.field(at, stop, "module_name"@) {
            None => {
                assert forall|u: int| !#[trigger] item_of(given, at, u) by {}
            },
            Some(child) => match given.text(child) {
                Err(_) => {},
                Ok(module) => {
                    assert(tree::child_of(nodes, at, child));
                    assert(says(given, at, "module_name"@, module));
                    if given.field(at, stop, "name"@) is Some {
                        let named = given.field(at, stop, "name"@)->0;
                        assert(tree::child_of(nodes, at, named));
                        assert(!tree::no_child(nodes, at, tree::with_field("name"@)));
                        lemma_items_told(given, at, at + 1, Some(module), records);
                    } else {
                        lemma_wildcard_told(given, at, at + 1, module, records);
                        assert forall|u: int| #[trigger] item_of(
                            given,
                            at,
                            u,
                        ) implies tree::first_child(nodes, at, u, is_star()) by {
                            if tree::child_of(nodes, at, u) {
                                assert(!tree::with_field("name"@)(nodes[u]));
                            }
                        }
                    }
                },
            },
        }
    } else if nodes[at].kind == "import_statement"@ {
        lemma_items_told(given, at, at + 1, None, records);
    } else {
        lemma_items_told(given, at, at + 1, Some("__future__"@), records);
    }
}

/// What a node itself is, is told of imports and main guards.
proof fn lemma_node_marked(
    given: Given,
    symbols: Seq<SymbolShown>,
    places: Seq<int>,
    scopes: Seq<ActiveScope>,
    at: int,
    records: Records,
    guards: Seq<int>,
)
    requires
        tree::is_tree(given.nodes),
        reached(given.nodes, at),
        in_order(symbols),
        scopes_told(given, symbols, places, scopes),
        inside(given.nodes, places, lang_python::innermost(scopes), at),
        marks_told(given, symbols, records, guards, at),
    ensures
        records.with_node(
            given,
            at,
            tree::end_of(given.nodes, at),
            symbols,
            scopes,
        ) matches Ok(next) ==> marks_told(
            given,
            symbols,
            next,
            tree::with_place(guards, guard_node(given), at),
            at + 1,
        ),
{
    let nodes = given.nodes;
    let stop = tree::end_of(nodes, at);
    let kind = nodes[at].kind;
    let further = tree::with_place(guards, guard_node(given), at);
    tree::lemma_lists_step(guards, guard_node(given), at);
    lemma_kinds_differ();
    lemma_import_kinds();
    if kind == "import_statement"@ || kind == "import_from_statement"@ || kind
        == "future_import_statement"@ {
        lemma_import_marked(given, at, records);
        match records.with_node(given, at, stop, symbols, scopes) {
            Err(_) => {},
            Ok(next) => {
                lemma_imports_grow(given, records.imports, next.imports, at);
            },
        }
    } else {
        assert forall|u: int| !#[trigger] item_of(given, at, u) by {}
        if kind == "call"@ {
        } else if kind == "class_definition"@ {
            match given.field(at, stop, "superclasses"@) {
                Some(arguments) => {
                    lemma_bases(
                        given,
                        symbols,
                        places,
                        scopes,
                        arguments + 1,
                        given.end(arguments, stop),
                        records,
                    );
                },
                None => {},
            }
        } else if kind == "if_statement"@ {
            assert(!opens(nodes, at));
            lemma_guard_marked(given, places, scopes, at, records);
        }
    }
}

/// A main guard is told.
proof fn lemma_guard_marked(
    given: Given,
    places: Seq<int>,
    scopes: Seq<ActiveScope>,
    at: int,
    records: Records,
)
    requires
        tree::is_tree(given.nodes),
        reached(given.nodes, at),
        given.nodes[at].kind == "if_statement"@,
        enclosed(given.nodes, places, lang_python::innermost(scopes), at),
    ensures
        scopes.len() > 0 ==> !guard_node(given)(at),
        scopes.len() == 0 ==> (records.with_main_guard(
            given,
            at,
            tree::end_of(given.nodes, at),
        ) matches Ok(next) ==> {
            &&& next.imports == records.imports
            &&& next.references == records.references
            &&& !guard_node(given)(at) ==> next.entry_points == records.entry_points
            &&& guard_node(given)(at) ==> next.entry_points == records.entry_points.push(
                next.entry_points.last(),
            ) && guard_told(given, next.entry_points.last(), at)
        }),
{
    let nodes = given.nodes;
    let stop = tree::end_of(nodes, at);
    tree::lemma_child_with_field(nodes, at, "condition"@);
    lemma_spans(nodes[at]);
    if scopes.len() > 0 {
        assert(tree::below(nodes, places[scopes.last().id.0 as int], at));
    } else {
        match given.field(at, stop, "condition"@) {
            None => {
                assert forall|written: Seq<char>| !says(given, at, "condition"@, written) by {
                    assert forall|c: int| !#[trigger] tree::first_child(
                        nodes,
                        at,
                        c,
                        tree::with_field("condition"@),
                    ) by {}
                }
            },
            Some(condition) => match given.text(condition) {
                Err(_) => {},
                Ok(found) => {
                    lemma_guards_main(wrap::without_blanks(found));
                    assert(says(given, at, "condition"@, found));
                    assert forall|written: Seq<char>| says(
                        given,
                        at,
                        "condition"@,
                        written,
                    ) implies written == found by {
                        let c = choose|c: int| #[trigger]
                            tree::first_child(nodes, at, c, tree::with_field("condition"@))
                                && given.text(c) == Ok::<Seq<char>, Seq<char>>(written);
                        assert(tree::child_of(nodes, at, c));
                        assert(tree::child_of(nodes, at, condition));
                    }
                },
            },
        }
    }
}

/// Imports and main guards of a node and all below it are told.
proof fn lemma_marked(
    given: Given,
    defined: Defined,
    places: Seq<int>,
    scopes: Seq<ActiveScope>,
    at: int,
    records: Records,
    guards: Seq<int>,
) -> (further: Seq<int>)
    requires
        tree::is_tree(given.nodes),
        reached(given.nodes, at),
        in_order(defined.symbols),
        defined_told(given, defined, places, given.nodes.len() as int),
        scopes_told(given, defined.symbols, places, scopes),
        enclosed(given.nodes, places, lang_python::innermost(scopes), at),
        marks_told(given, defined.symbols, records, guards, at),
    ensures
        lang_python::recorded(
            given,
            at,
            tree::end_of(given.nodes, at),
            defined,
            scopes,
            records,
        ) matches Ok(seen) ==> marks_told(
            given,
            defined.symbols,
            seen,
            further,
            tree::end_of(given.nodes, at),
        ),
    decreases tree::end_of(given.nodes, at) - at, 0int,
{
    let nodes = given.nodes;
    let stop = tree::end_of(nodes, at);
    tree::lemma_end_inside(nodes, at);
    let opened = lang_python::opened(scopes, lang_python::scope_at(defined, at));
    lemma_opened(given, defined, places, scopes, at);
    lemma_node_marked(given, defined.symbols, places, opened, at, records, guards);
    match records.with_node(given, at, stop, defined.symbols, opened) {
        Err(_) => guards,
        Ok(next) => {
            assert(tree::at_child(nodes, at, at + 1)) by {
                if at + 1 < stop {
                    tree::lemma_eldest(nodes, at);
                }
            }
            lemma_marked_below(
                given,
                defined,
                places,
                opened,
                at,
                at + 1,
                next,
                tree::with_place(guards, guard_node(given), at),
            )
        },
    }
}

proof fn lemma_marked_below(
    given: Given,
    defined: Defined,
    places: Seq<int>,
    scopes: Seq<ActiveScope>,
    u: int,
    at: int,
    records: Records,
    guards: Seq<int>,
) -> (further: Seq<int>)
    requires
        tree::is_tree(given.nodes),
        reached(given.nodes, u),
        u < at,
        tree::at_child(given.nodes, u, at),
        in_order(defined.symbols),
        defined_told(given, defined, places, given.nodes.len() as int),
        scopes_told(given, defined.symbols, places, scopes),
        inside(given.nodes, places, lang_python::innermost(scopes), u),
        marks_told(given, defined.symbols, records, guards, at),
    ensures
        lang_python::recorded_below(
            given,
            at,
            tree::end_of(given.nodes, u),
            defined,
            scopes,
            records,
        ) matches Ok(seen) ==> marks_told(
            given,
            defined.symbols,
            seen,
            further,
            tree::end_of(given.nodes, u),
        ),
    decreases tree::end_of(given.nodes, u) - at, 1int,
{
    let nodes = given.nodes;
    let stop = tree::end_of(nodes, u);
    if at >= stop {
        guards
    } else {
        let after = tree::end_of(nodes, at);
        tree::lemma_next_child(nodes, u, at);
        lemma_child_reached(nodes, u, at);
        if !nodes[at].named {
            lemma_unreached(nodes, at);
            tree::lemma_lists_skip(guards, guard_node(given), at, after);
            assert(items_imported(given, records.imports, after)) by {
                assert forall|p: int, v: int|
                    0 <= p < after && reached(nodes, p) && #[trigger] item_of(
                        given,
                        p,
                        v,
                    ) implies item_imported(given, records.imports, p, v) by {
                    assert(p < at);
                }
            }
            lemma_marked_below(given, defined, places, scopes, u, after, records, guards)
        } else {
            lemma_child_enclosed(nodes, places, lang_python::innermost(scopes), u, at);
            lemma_annotation(given, defined.symbols, places, scopes, at, after, records);
            let annotated = if syntax::has_field(nodes[at], "type"@) || syntax::has_field(
                nodes[at],
                "return_type"@,
            ) {
                records.with_annotation(given, at, after, defined.symbols, scopes)
            } else {
                Ok(records)
            };
            match annotated {
                Err(_) => guards,
                Ok(typed) => {
                    let step = lemma_marked(given, defined, places, scopes, at, typed, guards);
                    match lang_python::recorded(given, at, after, defined, scopes, typed) {
                        Err(_) => guards,
                        Ok(seen) => lemma_marked_below(
                            given,
                            defined,
                            places,
                            scopes,
                            u,
                            after,
                            seen,
                            step,
                        ),
                    }
                },
            }
        }
    }
}

/// Whether the symbol at `t` is a class of tests: a class of the module whose name
/// begins with `Test` or that has a test case among its base classes.
pub open spec fn test_class(
    given: Given,
    symbols: Seq<SymbolShown>,
    places: Seq<int>,
    t: int,
) -> bool {
    &&& symbols[t].kind == KindShown::Known(SymbolKind::Class)
    &&& symbols[t].parent_id is None
    &&& text::starts_with(symbols[t].name, "Test"@) || has_test_base(given, places[t])
}

/// Whether the symbol at `t` is a test: a class of tests, a function of the module whose
/// name begins with `test_`, or such a method of a class of tests.
pub open spec fn tested(
    given: Given,
    symbols: Seq<SymbolShown>,
    places: Seq<int>,
    t: int,
) -> bool {
    let symbol = symbols[t];
    ||| test_class(given, symbols, places, t)
    ||| {
        &&& symbol.kind == KindShown::Known(SymbolKind::Function)
        &&& symbol.parent_id is None
        &&& text::starts_with(symbol.name, "test_"@)
    }
    ||| {
        &&& symbol.kind == KindShown::Known(SymbolKind::Method)
        &&& text::starts_with(symbol.name, "test_"@)
        &&& symbol.parent_id matches Some(id) && test_class(given, symbols, places, id.0 as int)
    }
}

/// Whether an entry point is that of a test.
pub open spec fn test_told(symbols: Seq<SymbolShown>, entry: EntryShown, t: int) -> bool {
    &&& entry.kind == EntryPointKind::Test
    &&& entry.label == symbols[t].qualified_name
    &&& entry.symbol_id == Some(ParsedSymbolId(t as u32))
    &&& entry.span == symbols[t].span
}

/// Whether an entry point is that of a main guard or of a test.
#[verifier::opaque]
pub open spec fn entry_placed(
    given: Given,
    symbols: Seq<SymbolShown>,
    places: Seq<int>,
    guards: Seq<int>,
    entry: EntryShown,
) -> bool {
    ||| exists|i: int| 0 <= i < guards.len() && guard_told(given, entry, #[trigger] guards[i])
    ||| exists|t: int|
        0 <= t < symbols.len() && tested(given, symbols, places, t) && #[trigger] test_told(
            symbols,
            entry,
            t,
        )
}

#[verifier::opaque]
pub open spec fn guard_entered(given: Given, entries: Seq<EntryShown>, v: int) -> bool {
    exists|k: int| 0 <= k < entries.len() && guard_told(given, #[trigger] entries[k], v)
}

#[verifier::opaque]
pub open spec fn test_entered(symbols: Seq<SymbolShown>, entries: Seq<EntryShown>, t: int) -> bool {
    exists|k: int| 0 <= k < entries.len() && test_told(symbols, #[trigger] entries[k], t)
}

/// Whether a symbol is a test.
proof fn lemma_tested(given: Given, defined: Defined, places: Seq<int>, t: int)
    requires
        in_order(defined.symbols),
        cases_told(given, defined, places),
        places.len() == defined.symbols.len() <= u32::MAX + 1,
        forall|k: int|
            0 <= k < places.len() ==> #[trigger] symbol_told(given, defined.symbols, places, k),
        0 <= t < defined.symbols.len(),
    ensures
        lang_python::is_test(defined, defined.symbols[t]) == tested(
            given,
            defined.symbols,
            places,
            t,
        ),
{
    let symbols = defined.symbols;
    assert forall|k: int| 0 <= k < symbols.len() implies lang_python::is_test_class(
        defined,
        #[trigger] symbols[k],
    ) == test_class(given, symbols, places, k) by {
        assert(symbol_told(given, symbols, places, k));
        reveal(symbol_told);
        lemma_kinds_differ();
        assert(symbols[k].local_id == ParsedSymbolId(k as u32));
        assert(defined.test_cases.contains(ParsedSymbolId(k as u32)) == case_at(
            given,
            places[k],
        ));
    }
    assert forall|k: int| 0 <= k < symbols.len() implies lang_python::is_test_class_id(
        defined,
        (#[trigger] symbols[k]).local_id,
    ) == test_class(given, symbols, places, k) by {
        if lang_python::is_test_class_id(defined, symbols[k].local_id) {
            let i = choose|i: int|
                #![trigger defined.symbols[i]]
                0 <= i < defined.symbols.len() && lang_python::is_test_class(
                    defined,
                    defined.symbols[i],
                ) && defined.symbols[i].local_id == symbols[k].local_id;
            assert(i == k);
        }
    }
    match symbols[t].parent_id {
        Some(id) => {
            assert(symbols[id.0 as int].local_id == id);
        },
        None => {},
    }
}

/// The entry points with those of the first tests.
proof fn lemma_tests_entered(
    given: Given,
    defined: Defined,
    places: Seq<int>,
    guards: Seq<int>,
    entries: Seq<EntryShown>,
    count: nat,
)
    requires
        in_order(defined.symbols),
        cases_told(given, defined, places),
        places.len() == defined.symbols.len() <= u32::MAX + 1,
        forall|k: int|
            0 <= k < places.len() ==> #[trigger] symbol_told(given, defined.symbols, places, k),
        count <= defined.symbols.len(),
        forall|k: int|
            0 <= k < entries.len() ==> entry_placed(
                given,
                defined.symbols,
                places,
                guards,
                #[trigger] entries[k],
            ),
        forall|i: int|
            0 <= i < guards.len() ==> guard_entered(given, entries, #[trigger] guards[i]),
    ensures
        ({
            let all = lang_python::with_tests(entries, defined, count);
            &&& forall|k: int|
                0 <= k < all.len() ==> entry_placed(
                    given,
                    defined.symbols,
                    places,
                    guards,
                    #[trigger] all[k],
                )
            &&& forall|i: int|
                0 <= i < guards.len() ==> guard_entered(given, all, #[trigger] guards[i])
            &&& forall|t: int|
                0 <= t < count && #[trigger] tested(given, defined.symbols, places, t)
                    ==> test_entered(defined.symbols, all, t)
        }),
    decreases count,
{
    if count > 0 {
        let symbols = defined.symbols;
        let last = count - 1;
        let before = lang_python::with_tests(entries, defined, last as nat);
        let all = lang_python::with_tests(entries, defined, count);
        lemma_tests_entered(given, defined, places, guards, entries, last as nat);
        lemma_tested(given, defined, places, last);
        if tested(given, symbols, places, last) {
            let entry = all.last();
            assert(all == before.push(entry));
            assert(symbols[last].local_id == ParsedSymbolId(last as u32));
            assert(test_told(symbols, entry, last));
            assert(entry_placed(given, symbols, places, guards, entry)) by {
                reveal(entry_placed);
            }
            assert forall|k: int| 0 <= k < all.len() implies entry_placed(
                given,
                symbols,
                places,
                guards,
                #[trigger] all[k],
            ) by {
                if k < before.len() {
                    assert(all[k] == before[k]);
                }
            }
            assert forall|i: int| 0 <= i < guards.len() implies guard_entered(
                given,
                all,
                #[trigger] guards[i],
            ) by {
                reveal(guard_entered);
                assert(guard_entered(given, before, guards[i]));
                let k = choose|k: int|
                    0 <= k < before.len() && guard_told(given, #[trigger] before[k], guards[i]);
                assert(all[k] == before[k]);
            }
            assert forall|t: int| 0 <= t < count && #[trigger] tested(
                given,
                symbols,
                places,
                t,
            ) implies test_entered(symbols, all, t) by {
                reveal(test_entered);
                if t < last {
                    assert(test_entered(symbols, before, t));
                    let k = choose|k: int|
                        0 <= k < before.len() && test_told(symbols, #[trigger] before[k], t);
                    assert(all[k] == before[k]);
                } else {
                    assert(test_told(symbols, all[before.len() as int], t));
                }
            }
        } else {
            assert(all == before);
        }
    }
}

/// Whether the imports and the entry points of a file are those of its tree.
pub open spec fn marked(given: Given, file: FileShown, places: Seq<int>, guards: Seq<int>) -> bool {
    let nodes = given.nodes;
    &&& places.len() == file.symbols.len()
    &&& forall|k: int|
        0 <= k < places.len() ==> #[trigger] symbol_told(given, file.symbols, places, k)
    &&& tree::lists(guards, guard_node(given), nodes.len() as int)
    &&& forall|k: int|
        0 <= k < file.entry_points.len() ==> entry_placed(
            given,
            file.symbols,
            places,
            guards,
            #[trigger] file.entry_points[k],
        )
    &&& forall|i: int|
        0 <= i < guards.len() ==> guard_entered(given, file.entry_points, #[trigger] guards[i])
    &&& forall|t: int|
        0 <= t < file.symbols.len() && #[trigger] tested(given, file.symbols, places, t)
            ==> test_entered(file.symbols, file.entry_points, t)
    &&& forall|k: int|
        0 <= k < file.imports.len() ==> import_placed(given, #[trigger] file.imports[k])
    &&& forall|p: int, u: int|
        reached(nodes, p) && #[trigger] item_of(given, p, u) ==> item_imported(
            given,
            file.imports,
            p,
            u,
        )
    &&& forall|i: int, j: int|
        0 <= i < j < file.imports.len() ==> !earlier(
            (#[trigger] file.imports[j]).span,
            (#[trigger] file.imports[i]).span,
        )
    &&& forall|i: int, j: int|
        0 <= i < j < file.entry_points.len() ==> !earlier(
            (#[trigger] file.entry_points[j]).span,
            (#[trigger] file.entry_points[i]).span,
        )
}

proof fn lemma_mark_orders()
    ensures
        sort::weak_order(lang_python::import_order()),
        sort::weak_order(lang_python::entry_order()),
        forall|left: ImportShown, right: ImportShown| #[trigger]
            lang_python::import_order()(left, right) == earlier(left.span, right.span),
        forall|left: EntryShown, right: EntryShown|
            earlier(left.span, right.span) ==> #[trigger] lang_python::entry_order()(left, right),
{
    assert forall|a: EntryShown, b: EntryShown| #[trigger]
        lang_python::entry_order()(a, b) implies !lang_python::entry_order()(b, a) by {
        text::law_text_order(a.label, b.label, a.label);
    }
    assert forall|a: EntryShown, b: EntryShown, c: EntryShown|
        !#[trigger] lang_python::entry_order()(b, a) && !#[trigger] lang_python::entry_order()(
            c,
            b,
        ) implies !lang_python::entry_order()(c, a) by {
        text::law_text_order(a.label, b.label, c.label);
        text::law_text_order(c.label, b.label, a.label);
        text::law_text_order(b.label, a.label, c.label);
        text::law_text_order(c.label, a.label, b.label);
    }
}

/// The entry points of a file in order.
proof fn lemma_entries_sorted(
    given: Given,
    symbols: Seq<SymbolShown>,
    places: Seq<int>,
    guards: Seq<int>,
    entries: Seq<EntryShown>,
)
    requires
        forall|k: int|
            0 <= k < entries.len() ==> entry_placed(
                given,
                symbols,
                places,
                guards,
                #[trigger] entries[k],
            ),
        forall|i: int|
            0 <= i < guards.len() ==> guard_entered(given, entries, #[trigger] guards[i]),
        forall|t: int|
            0 <= t < symbols.len() && #[trigger] tested(given, symbols, places, t)
                ==> test_entered(symbols, entries, t),
    ensures
        ({
            let sorted = sort::stable_sorted_by(entries, lang_python::entry_order());
            &&& forall|k: int|
                0 <= k < sorted.len() ==> entry_placed(
                    given,
                    symbols,
                    places,
                    guards,
                    #[trigger] sorted[k],
                )
            &&& forall|i: int|
                0 <= i < guards.len() ==> guard_entered(given, sorted, #[trigger] guards[i])
            &&& forall|t: int|
                0 <= t < symbols.len() && #[trigger] tested(given, symbols, places, t)
                    ==> test_entered(symbols, sorted, t)
            &&& forall|i: int, j: int|
                0 <= i < j < sorted.len() ==> !earlier(
                    (#[trigger] sorted[j]).span,
                    (#[trigger] sorted[i]).span,
                )
        }),
{
    let sorted = sort::stable_sorted_by(entries, lang_python::entry_order());
    lemma_mark_orders();
    sort::law_sorted_by(entries, lang_python::entry_order());
    let placed = |entry: EntryShown| entry_placed(given, symbols, places, guards, entry);
    sort::lemma_sorted_by_keeps(entries, lang_python::entry_order(), placed);
    assert forall|k: int| 0 <= k < sorted.len() implies entry_placed(
        given,
        symbols,
        places,
        guards,
        #[trigger] sorted[k],
    ) by {
        assert(placed(sorted[k]));
    }
    canonical::lemma_same_members(entries, sorted);
    assert forall|i: int| 0 <= i < guards.len() implies guard_entered(
        given,
        sorted,
        #[trigger] guards[i],
    ) by {
        reveal(guard_entered);
        assert(guard_entered(given, entries, guards[i]));
        let k = choose|k: int|
            0 <= k < entries.len() && guard_told(given, #[trigger] entries[k], guards[i]);
        assert(entries.contains(entries[k]));
        assert(sorted.contains(entries[k]));
        let l = choose|l: int| 0 <= l < sorted.len() && sorted[l] == entries[k];
        assert(guard_told(given, sorted[l], guards[i]));
    }
    assert forall|t: int| 0 <= t < symbols.len() && #[trigger] tested(
        given,
        symbols,
        places,
        t,
    ) implies test_entered(symbols, sorted, t) by {
        reveal(test_entered);
        assert(test_entered(symbols, entries, t));
        let k = choose|k: int| 0 <= k < entries.len() && test_told(symbols, #[trigger] entries[k], t);
        assert(entries.contains(entries[k]));
        assert(sorted.contains(entries[k]));
        let l = choose|l: int| 0 <= l < sorted.len() && sorted[l] == entries[k];
        assert(test_told(symbols, sorted[l], t));
    }
    assert forall|i: int, j: int| 0 <= i < j < sorted.len() implies !earlier(
        (#[trigger] sorted[j]).span,
        (#[trigger] sorted[i]).span,
    ) by {
        assert(!lang_python::entry_order()(sorted[j], sorted[i]));
    }
}

/// The imports of a file in order.
proof fn lemma_imports_sorted(given: Given, imports: Seq<ImportShown>)
    requires
        imports_placed(given, imports),
        items_imported(given, imports, given.nodes.len() as int),
    ensures
        ({
            let sorted = sort::stable_sorted_by(imports, lang_python::import_order());
            &&& imports_placed(given, sorted)
            &&& items_imported(given, sorted, given.nodes.len() as int)
            &&& forall|i: int, j: int|
                0 <= i < j < sorted.len() ==> !earlier(
                    (#[trigger] sorted[j]).span,
                    (#[trigger] sorted[i]).span,
                )
        }),
{
    let sorted = sort::stable_sorted_by(imports, lang_python::import_order());
    lemma_mark_orders();
    sort::law_sorted_by(imports, lang_python::import_order());
    let placed = |import: ImportShown| import_placed(given, import);
    sort::lemma_sorted_by_keeps(imports, lang_python::import_order(), placed);
    assert forall|k: int| 0 <= k < sorted.len() implies import_placed(
        given,
        #[trigger] sorted[k],
    ) by {
        assert(placed(sorted[k]));
    }
    canonical::lemma_same_members(imports, sorted);
    assert forall|p: int, u: int|
        0 <= p < given.nodes.len() && reached(given.nodes, p) && #[trigger] item_of(
            given,
            p,
            u,
        ) implies item_imported(given, sorted, p, u) by {
        reveal(item_imported);
        assert(item_imported(given, imports, p, u));
        let k = choose|k: int|
            0 <= k < imports.len() && import_told(given, #[trigger] imports[k], p, u);
        assert(imports.contains(imports[k]));
        assert(sorted.contains(imports[k]));
        let l = choose|l: int| 0 <= l < sorted.len() && sorted[l] == imports[k];
        assert(import_told(given, sorted[l], p, u));
    }
}

/// The imports of a Python file are the items of its import statements, each with the
/// module that it is imported from and its alias, and its entry points are its main
/// guards and its tests: the classes of tests of the module, their methods and the
/// functions of the module that are named as tests.
pub proof fn law_python_imports_and_entry_points(
    path: RepositoryPath,
    source: Seq<char>,
    nodes: Seq<NodeShown>,
) -> (found: (Seq<int>, Seq<int>))
    requires
        tree::is_tree(nodes),
        lang_python::extracted(path, source, nodes) is Ok,
    ensures
        ({
            let file = lang_python::extracted(path, source, nodes)->Ok_0;
            file.module is Some && marked(
                Given { nodes, source, module: (file.module->0).qualified_name },
                file,
                found.0,
                found.1,
            )
        }),
{
    let file = lang_python::extracted(path, source, nodes)->Ok_0;
    let names = lang_python::module_names(path@)->Ok_0;
    let given = Given { nodes, source, module: names.1 };
    let nothing = Defined {
        symbols: Seq::empty(),
        scopes: Map::empty(),
        test_cases: Seq::empty(),
    };
    let start = Records {
        imports: Seq::empty(),
        references: Seq::empty(),
        calls: Seq::empty(),
        entry_points: Seq::empty(),
    };
    let stop = nodes.len() as int;
    let none = Seq::<ActiveScope>::empty();
    assert(scopes_told(given, nothing.symbols, Seq::empty(), none)) by {
        reveal(scopes_told);
    }
    assert(reached(nodes, 0));
    assert(defined_told(given, nothing, Seq::empty(), 0));
    assert(constants_told(given, nothing.symbols, Seq::empty(), 0)) by {
        reveal(constants_told);
    }
    let places = lemma_defined(given, 0, none, nothing, Seq::empty());
    let defined = lang_python::defined_by(given, 0, stop, none, nothing)->Ok_0;
    assert(in_order(defined.symbols)) by {
        assert forall|k: int| 0 <= k < defined.symbols.len() implies (
        #[trigger] defined.symbols[k]).local_id.0 == k && (defined.symbols[k].parent_id is Some
            ==> (defined.symbols[k].parent_id->0).0 < k) by {
            reveal(symbol_told);
            assert(symbol_told(given, defined.symbols, places, k));
        }
    }
    assert(scopes_told(given, defined.symbols, places, none)) by {
        reveal(scopes_told);
    }
    assert(marks_told(given, defined.symbols, start, Seq::empty(), 0));
    let guards = lemma_marked(given, defined, places, none, 0, start, Seq::empty());
    let records = lang_python::recorded(given, 0, stop, defined, none, start)->Ok_0;
    assert(marks_told(given, defined.symbols, records, guards, stop));
    let entries = records.entry_points;
    assert forall|k: int| 0 <= k < entries.len() implies entry_placed(
        given,
        defined.symbols,
        places,
        guards,
        #[trigger] entries[k],
    ) by {
        reveal(entry_placed);
        assert(guard_told(given, entries[k], guards[k]));
    }
    assert forall|i: int| 0 <= i < guards.len() implies guard_entered(
        given,
        entries,
        #[trigger] guards[i],
    ) by {
        reveal(guard_entered);
        assert(guard_told(given, entries[i], guards[i]));
    }
    let count = defined.symbols.len();
    lemma_tests_entered(given, defined, places, guards, entries, count);
    let all = lang_python::with_tests(entries, defined, count);
    lemma_entries_sorted(given, defined.symbols, places, guards, all);
    lemma_imports_sorted(given, records.imports);
    (places, guards)
}

} // verus!
