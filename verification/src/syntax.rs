//! Syntax trees: the nodes of a tree in the order in which a walk meets them, each
//! node before its children.
use crate::source;
use crate::source::SourceSpan;
use crate::text;
use vstd::prelude::*;

verus! {

/// The languages whose grammar is known.
#[derive(Debug, Clone, Copy, PartialEq, Eq, Structural)]
pub enum Grammar {
    Rust,
    Python,
}

/// One node of a syntax tree.
#[derive(Debug, Clone, PartialEq, Eq)]
pub struct SyntaxNode {
    pub kind: String,
    /// The role that the node has for its parent.
    pub field: Option<String>,
    /// Whether the node stands for a rule of the grammar, not for a literal.
    pub named: bool,
    pub has_error: bool,
    pub start_byte: usize,
    pub end_byte: usize,
    pub start_row: usize,
    pub start_column: usize,
    pub end_row: usize,
    pub end_column: usize,
    /// How many nodes the subtree has, this one included.
    pub descendants: usize,
}

/// One node of a syntax tree.
#[verifier::ext_equal]
pub struct NodeShown {
    pub kind: Seq<char>,
    pub field: Option<Seq<char>>,
    pub named: bool,
    pub has_error: bool,
    pub start_byte: usize,
    pub end_byte: usize,
    pub start_row: usize,
    pub start_column: usize,
    pub end_row: usize,
    pub end_column: usize,
    pub descendants: usize,
}

impl View for SyntaxNode {
    type V = NodeShown;

    open spec fn view(&self) -> NodeShown {
        NodeShown {
            kind: self.kind@,
            field: match self.field {
                Some(field) => Some(field@),
                None => None,
            },
            named: self.named,
            has_error: self.has_error,
            start_byte: self.start_byte,
            end_byte: self.end_byte,
            start_row: self.start_row,
            start_column: self.start_column,
            end_row: self.end_row,
            end_column: self.end_column,
            descendants: self.descendants,
        }
    }
}

pub open spec fn nodes_shown(nodes: Seq<SyntaxNode>) -> Seq<NodeShown> {
    nodes.map_values(|node: SyntaxNode| node@)
}

/// A tree of tree-sitter.
#[verifier::external_type_specification]
#[verifier::external_body]
pub struct ExTree(tree_sitter::Tree);

/// The nodes of a tree, each before its children.
pub uninterp spec fn tree_nodes(tree: tree_sitter::Tree) -> Seq<NodeShown>;

/// What parsing a source with a grammar comes to: the nodes of its tree, nothing
/// where there is no tree, or the reason why the grammar does not load.
pub uninterp spec fn syntax_of(grammar: Grammar, source: Seq<char>) -> Result<
    Option<Seq<NodeShown>>,
    Seq<char>,
>;

/// `tree_sitter::Parser::parse` after `Parser::set_language` with the grammar of
/// `tree_sitter_rust` or `tree_sitter_python`: the tree depends on the grammar and
/// the source alone.
#[verifier::external_body]
fn parse_tree(grammar: Grammar, source: &str) -> (parsed: Result<
    Option<tree_sitter::Tree>,
    String,
>)
    ensures
        match parsed {
            Ok(Some(tree)) => syntax_of(grammar, source@) == Ok::<
                Option<Seq<NodeShown>>,
                Seq<char>,
            >(Some(tree_nodes(tree))),
            Ok(None) => syntax_of(grammar, source@) == Ok::<Option<Seq<NodeShown>>, Seq<char>>(
                None,
            ),
            Err(message) => syntax_of(grammar, source@) == Err::<
                Option<Seq<NodeShown>>,
                Seq<char>,
            >(message@),
        },
{
    let language: tree_sitter::Language = match grammar {
        Grammar::Rust => tree_sitter_rust::LANGUAGE.into(),
        Grammar::Python => tree_sitter_python::LANGUAGE.into(),
    };
    let mut parser = tree_sitter::Parser::new();
    match parser.set_language(&language) {
        Ok(()) => Ok(parser.parse(source, None)),
        Err(error) => Err(error.to_string()),
    }
}

/// `tree_sitter::Node::descendant_count` of the root: how many nodes the tree has, the
/// root included.
#[verifier::external_body]
fn node_count(tree: &tree_sitter::Tree) -> (count: usize)
    ensures
        count == tree_nodes(*tree).len(),
        count > 0,
{
    tree.root_node().descendant_count()
}

/// The node that `tree_sitter::TreeCursor::goto_descendant` moves to: the nth node
/// of a walk that meets every node before its children.
#[verifier::external_body]
fn node_at(tree: &tree_sitter::Tree, index: usize) -> (node: SyntaxNode)
    requires
        index < tree_nodes(*tree).len(),
    ensures
        node@ == tree_nodes(*tree)[index as int],
{
    let mut cursor = tree.walk();
    cursor.goto_descendant(index);
    let node = cursor.node();
    let (start, end) = (node.start_position(), node.end_position());
    SyntaxNode {
        kind: node.kind().to_owned(), field: cursor.field_name().map(str::to_owned),
        named: node.is_named(), has_error: node.has_error(),
        start_byte: node.start_byte(), end_byte: node.end_byte(),
        start_row: start.row, start_column: start.column,
        end_row: end.row, end_column: end.column,
        descendants: node.descendant_count(),
    }
}

/// The nodes of the syntax tree of a source.
pub fn parse_source(grammar: Grammar, source: &str) -> (parsed: Result<
    Option<Vec<SyntaxNode>>,
    String,
>)
    ensures
        match parsed {
            Ok(Some(nodes)) => syntax_of(grammar, source@) == Ok::<
                Option<Seq<NodeShown>>,
                Seq<char>,
            >(Some(nodes_shown(nodes@))) && nodes@.len() > 0,
            Ok(None) => syntax_of(grammar, source@) == Ok::<Option<Seq<NodeShown>>, Seq<char>>(
                None,
            ),
            Err(message) => syntax_of(grammar, source@) == Err::<
                Option<Seq<NodeShown>>,
                Seq<char>,
            >(message@),
        },
{
    let tree = match parse_tree(grammar, source) {
        Ok(Some(tree)) => tree,
        Ok(None) => {
            return Ok(None);
        },
        Err(message) => {
            return Err(message);
        },
    };
    let count = node_count(&tree);
    let mut nodes: Vec<SyntaxNode> = Vec::new();
    let mut index: usize = 0;
    while index < count
        invariant
            index <= count,
            count == tree_nodes(tree).len(),
            nodes@.len() == index,
            forall|i: int| 0 <= i < index ==> (#[trigger] nodes@[i])@ == tree_nodes(tree)[i],
        decreases count - index,
    {
        nodes.push(node_at(&tree, index));
        index = index + 1;
    }
    assert(nodes_shown(nodes@) =~= tree_nodes(tree));
    Ok(Some(nodes))
}

/// Where the subtree of the node at `at` ends, within `stop`.
pub open spec fn after(nodes: Seq<NodeShown>, at: int, stop: int) -> int {
    let end = at + nodes[at].descendants;
    if at < end <= stop {
        end
    } else {
        stop
    }
}

/// Finds where the subtree of a node ends.
pub fn node_end(nodes: &Vec<SyntaxNode>, at: usize, stop: usize) -> (end: usize)
    requires
        at < stop <= nodes@.len(),
    ensures
        end == after(nodes_shown(nodes@), at as int, stop as int),
        at < end <= stop,
{
    let count = nodes[at].descendants;
    assert(nodes_shown(nodes@)[at as int] == nodes@[at as int]@);
    if count > 0 && count <= stop - at {
        at + count
    } else {
        stop
    }
}

/// The first of the siblings from `at` on that has a role.
pub open spec fn sibling_with_field(
    nodes: Seq<NodeShown>,
    at: int,
    stop: int,
    field: Seq<char>,
) -> Option<int>
    decreases stop - at,
{
    if at >= stop {
        None
    } else if nodes[at].field == Some(field) {
        Some(at)
    } else {
        sibling_with_field(nodes, after(nodes, at, stop), stop, field)
    }
}

/// The child that has a role for its parent.
pub open spec fn child_with_field(
    nodes: Seq<NodeShown>,
    at: int,
    stop: int,
    field: Seq<char>,
) -> Option<int> {
    sibling_with_field(nodes, at + 1, stop, field)
}

/// A child with a role stands inside its parent.
pub proof fn lemma_field_inside(nodes: Seq<NodeShown>, at: int, stop: int, field: Seq<char>)
    ensures
        sibling_with_field(nodes, at, stop, field) matches Some(child) ==> at <= child < stop,
    decreases stop - at,
{
    if at < stop && nodes[at].field != Some(field) {
        lemma_field_inside(nodes, after(nodes, at, stop), stop, field);
    }
}

pub open spec fn has_field(node: NodeShown, field: Seq<char>) -> bool {
    node.field == Some(field)
}

/// Tests whether a node has a role for its parent.
pub fn is_field(node: &SyntaxNode, field: &str) -> (found: bool)
    ensures
        found == has_field(node@, field@),
{
    match &node.field {
        Some(own) => text::same_text(own.as_str(), field),
        None => false,
    }
}

/// Finds the child that has a role for its parent.
pub fn find_field(nodes: &Vec<SyntaxNode>, at: usize, stop: usize, field: &str) -> (found: Option<
    usize,
>)
    requires
        at < stop <= nodes@.len(),
    ensures
        match found {
            Some(child) => child_with_field(
                nodes_shown(nodes@),
                at as int,
                stop as int,
                field@,
            ) == Some(child as int) && at < child < stop,
            None => child_with_field(nodes_shown(nodes@), at as int, stop as int, field@) is None,
        },
{
    let mut child: usize = at + 1;
    while child < stop
        invariant
            at < child <= stop <= nodes@.len(),
            child_with_field(nodes_shown(nodes@), at as int, stop as int, field@)
                == sibling_with_field(nodes_shown(nodes@), child as int, stop as int, field@),
        decreases stop - child,
    {
        assert(nodes_shown(nodes@)[child as int] == nodes@[child as int]@);
        if is_field(&nodes[child], field) {
            return Some(child);
        }
        child = node_end(nodes, child, stop);
    }
    None
}

/// The first of the siblings from `at` on that is named.
pub open spec fn named_sibling(nodes: Seq<NodeShown>, at: int, stop: int) -> Option<int>
    decreases stop - at,
{
    if at >= stop {
        None
    } else if nodes[at].named {
        Some(at)
    } else {
        named_sibling(nodes, after(nodes, at, stop), stop)
    }
}

/// A named sibling stands before the end.
pub proof fn lemma_named_inside(nodes: Seq<NodeShown>, at: int, stop: int)
    ensures
        named_sibling(nodes, at, stop) matches Some(child) ==> at <= child < stop,
    decreases stop - at,
{
    if at < stop && !nodes[at].named {
        lemma_named_inside(nodes, after(nodes, at, stop), stop);
    }
}

/// Finds the first named child of a node.
pub fn first_named_child(nodes: &Vec<SyntaxNode>, at: usize, stop: usize) -> (found: Option<usize>)
    requires
        at < stop <= nodes@.len(),
    ensures
        match found {
            Some(child) => named_sibling(nodes_shown(nodes@), at + 1, stop as int) == Some(
                child as int,
            ) && at < child < stop,
            None => named_sibling(nodes_shown(nodes@), at + 1, stop as int) is None,
        },
{
    let mut child: usize = at + 1;
    while child < stop
        invariant
            at < child <= stop <= nodes@.len(),
            named_sibling(nodes_shown(nodes@), at + 1, stop as int) == named_sibling(
                nodes_shown(nodes@),
                child as int,
                stop as int,
            ),
        decreases stop - child,
    {
        assert(nodes_shown(nodes@)[child as int] == nodes@[child as int]@);
        if nodes[child].named {
            return Some(child);
        }
        child = node_end(nodes, child, stop);
    }
    None
}

/// Tests whether a node is of a kind.
pub fn is_kind(node: &SyntaxNode, kind: &str) -> (found: bool)
    ensures
        found == (node@.kind == kind@),
{
    text::same_text(node.kind.as_str(), kind)
}

/// The source text of a node.
pub open spec fn node_text(node: NodeShown, source: Seq<char>) -> Option<Seq<char>> {
    text::between_bytes(source, node.start_byte as int, node.end_byte as int)
}

/// Why the range of a node cannot be told.
#[derive(Debug, Clone, Copy, PartialEq, Eq, Structural)]
pub enum SpanFault {
    StartLine,
    EndLine,
    StartColumn,
    EndColumn,
    Reversed,
}

/// Where a node starts, on lines that count from one.
pub open spec fn node_start(node: NodeShown) -> (u32, u32) {
    ((node.start_row + 1) as u32, node.start_column as u32)
}

/// Where a node ends.
pub open spec fn node_stop(node: NodeShown) -> (u32, u32) {
    ((node.end_row + 1) as u32, node.end_column as u32)
}

/// The range that a node covers, if lines and columns can be counted.
pub open spec fn span_of(node: NodeShown) -> Result<((u32, u32), (u32, u32)), SpanFault> {
    if node.start_row >= u32::MAX {
        Err(SpanFault::StartLine)
    } else if node.end_row >= u32::MAX {
        Err(SpanFault::EndLine)
    } else if node.start_column > u32::MAX {
        Err(SpanFault::StartColumn)
    } else if node.end_column > u32::MAX {
        Err(SpanFault::EndColumn)
    } else if source::position_before(node_stop(node), node_start(node)) {
        Err(SpanFault::Reversed)
    } else {
        Ok((node_start(node), node_stop(node)))
    }
}

/// The range that a node covers. A range that ends before it starts is reported with
/// the reason why it is none.
pub fn node_span(node: &SyntaxNode) -> (span: Result<SourceSpan, (SpanFault, String)>)
    ensures
        match span {
            Ok(span) => span_of(node@) == Ok::<((u32, u32), (u32, u32)), SpanFault>(span@),
            Err((fault, reason)) => span_of(node@) == Err::<((u32, u32), (u32, u32)), SpanFault>(
                fault,
            ) && (fault == SpanFault::Reversed ==> reason@ == source::reversed_text(
                node_start(node@),
                node_stop(node@),
            )),
        },
{
    if node.start_row >= u32::MAX as usize {
        return Err((SpanFault::StartLine, String::new()));
    }
    if node.end_row >= u32::MAX as usize {
        return Err((SpanFault::EndLine, String::new()));
    }
    if node.start_column > u32::MAX as usize {
        return Err((SpanFault::StartColumn, String::new()));
    }
    if node.end_column > u32::MAX as usize {
        return Err((SpanFault::EndColumn, String::new()));
    }
    match SourceSpan::new(
        (node.start_row + 1) as u32,
        node.start_column as u32,
        (node.end_row + 1) as u32,
        node.end_column as u32,
    ) {
        Ok(span) => Ok(span),
        Err(error) => Err((SpanFault::Reversed, error.to_string())),
    }
}

} // verus!
