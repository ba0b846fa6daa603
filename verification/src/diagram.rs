//! Deterministic SVG rendering of diagrams.
use crate::evidence::{Diagram, DiagramEdge, DiagramNode};
use crate::layout;
use crate::layout::Layout;
use crate::svg;
use crate::text;
use vstd::prelude::*;

verus! {

pub const MAX_NODES: usize = 32;

pub const MAX_EDGES: usize = 64;

pub const MAX_TITLE_BYTES: usize = 256;

pub const MAX_LABEL_BYTES: usize = 128;

pub const MAX_DIMENSION: i32 = 4_096;

pub const MAX_SVG_BYTES: usize = 1_048_576;

/// An error produced while validating or rendering an SVG diagram.
#[derive(Debug, Clone, PartialEq, Eq)]
pub enum DiagramRenderError {
    /// The diagram contains more nodes than the renderer permits.
    TooManyNodes { actual: usize, maximum: usize },
    /// The diagram contains more edges than the renderer permits.
    TooManyEdges { actual: usize, maximum: usize },
    /// The UTF-8 title is too large.
    TitleTooLong { actual: usize, maximum: usize },
    /// A node label is too large in UTF-8 bytes.
    NodeLabelTooLong { node_index: usize, actual: usize, maximum: usize },
    /// An edge label is too large in UTF-8 bytes.
    EdgeLabelTooLong { edge_index: usize, actual: usize, maximum: usize },
    /// Two nodes use the same model ID.
    DuplicateNodeId { first_node_index: usize, duplicate_node_index: usize },
    /// An edge refers to a source node that is not present.
    UnknownEdgeSource { edge_index: usize, source: String },
    /// An edge refers to a target node that is not present.
    UnknownEdgeTarget { edge_index: usize, target: String },
    /// The computed SVG width exceeds the canvas limit.
    WidthLimitExceeded { actual: usize, maximum: usize },
    /// The computed SVG height exceeds the canvas limit.
    HeightLimitExceeded { actual: usize, maximum: usize },
    /// The serialized SVG exceeds the output byte-size limit.
    SvgSizeLimitExceeded { actual: usize, maximum: usize },
}

/// A sentence with two numbers in it.
pub open spec fn two_numbers(
    head: Seq<char>,
    first: usize,
    middle: Seq<char>,
    second: usize,
) -> Seq<char> {
    head + text::decimal(first as nat) + middle + text::decimal(second as nat)
}

fn say_two_numbers(head: &str, first: usize, middle: &str, second: usize) -> (sentence: String)
    ensures
        sentence@ == two_numbers(head@, first, middle@, second),
{
    let mut sentence = head.to_owned();
    text::push_decimal(&mut sentence, first as u64);
    sentence.push_str(middle);
    text::push_decimal(&mut sentence, second as u64);
    sentence
}

impl DiagramRenderError {
    /// What the error tells a reader, given how the name of a missing node is
    /// quoted.
    pub open spec fn message_text(self, quoted_name: Seq<char>) -> Seq<char> {
        match self {
            DiagramRenderError::TooManyNodes { actual, maximum } => two_numbers(
                "diagram has "@,
                actual,
                " nodes; maximum is "@,
                maximum,
            ),
            DiagramRenderError::TooManyEdges { actual, maximum } => two_numbers(
                "diagram has "@,
                actual,
                " edges; maximum is "@,
                maximum,
            ),
            DiagramRenderError::TitleTooLong { actual, maximum } => two_numbers(
                "diagram title is "@,
                actual,
                " bytes; maximum is "@,
                maximum,
            ),
            DiagramRenderError::NodeLabelTooLong { node_index, actual, maximum } => "node "@
                + text::decimal(node_index as nat) + two_numbers(
                " label is "@,
                actual,
                " bytes; maximum is "@,
                maximum,
            ),
            DiagramRenderError::EdgeLabelTooLong { edge_index, actual, maximum } => "edge "@
                + text::decimal(edge_index as nat) + two_numbers(
                " label is "@,
                actual,
                " bytes; maximum is "@,
                maximum,
            ),
            DiagramRenderError::DuplicateNodeId { first_node_index, duplicate_node_index } => two_numbers(
                "node "@,
                duplicate_node_index,
                " duplicates the ID of node "@,
                first_node_index,
            ),
            DiagramRenderError::UnknownEdgeSource { edge_index, source } => "edge "@
                + text::decimal(edge_index as nat) + " has unknown source "@ + quoted_name,
            DiagramRenderError::UnknownEdgeTarget { edge_index, target } => "edge "@
                + text::decimal(edge_index as nat) + " has unknown target "@ + quoted_name,
            DiagramRenderError::WidthLimitExceeded { actual, maximum } => two_numbers(
                "SVG width is "@,
                actual,
                "; maximum is "@,
                maximum,
            ),
            DiagramRenderError::HeightLimitExceeded { actual, maximum } => two_numbers(
                "SVG height is "@,
                actual,
                "; maximum is "@,
                maximum,
            ),
            DiagramRenderError::SvgSizeLimitExceeded { actual, maximum } => two_numbers(
                "SVG is "@,
                actual,
                " bytes; maximum is "@,
                maximum,
            ),
        }
    }

    /// The name of a missing node, or nothing.
    pub open spec fn missing_name(self) -> Seq<char> {
        match self {
            DiagramRenderError::UnknownEdgeSource { source, .. } => source@,
            DiagramRenderError::UnknownEdgeTarget { target, .. } => target@,
            _ => Seq::empty(),
        }
    }

    /// The message of the error, given how the name of a missing node is quoted.
    pub fn message(&self, quoted_name: &str) -> (sentence: String)
        ensures
            sentence@ == self.message_text(quoted_name@),
    {
        match self {
            DiagramRenderError::TooManyNodes { actual, maximum } => say_two_numbers(
                "diagram has ",
                *actual,
                " nodes; maximum is ",
                *maximum,
            ),
            DiagramRenderError::TooManyEdges { actual, maximum } => say_two_numbers(
                "diagram has ",
                *actual,
                " edges; maximum is ",
                *maximum,
            ),
            DiagramRenderError::TitleTooLong { actual, maximum } => say_two_numbers(
                "diagram title is ",
                *actual,
                " bytes; maximum is ",
                *maximum,
            ),
            DiagramRenderError::NodeLabelTooLong { node_index, actual, maximum } => {
                let mut sentence = "node ".to_owned();
                text::push_decimal(&mut sentence, *node_index as u64);
                let rest = say_two_numbers(" label is ", *actual, " bytes; maximum is ", *maximum);
                sentence.push_str(rest.as_str());
                sentence
            },
            DiagramRenderError::EdgeLabelTooLong { edge_index, actual, maximum } => {
                let mut sentence = "edge ".to_owned();
                text::push_decimal(&mut sentence, *edge_index as u64);
                let rest = say_two_numbers(" label is ", *actual, " bytes; maximum is ", *maximum);
                sentence.push_str(rest.as_str());
                sentence
            },
            DiagramRenderError::DuplicateNodeId { first_node_index, duplicate_node_index } => say_two_numbers(
                "node ",
                *duplicate_node_index,
                " duplicates the ID of node ",
                *first_node_index,
            ),
            DiagramRenderError::UnknownEdgeSource { edge_index, source } => {
                let mut sentence = "edge ".to_owned();
                text::push_decimal(&mut sentence, *edge_index as u64);
                sentence.push_str(" has unknown source ");
                sentence.push_str(quoted_name);
                sentence
            },
            DiagramRenderError::UnknownEdgeTarget { edge_index, target } => {
                let mut sentence = "edge ".to_owned();
                text::push_decimal(&mut sentence, *edge_index as u64);
                sentence.push_str(" has unknown target ");
                sentence.push_str(quoted_name);
                sentence
            },
            DiagramRenderError::WidthLimitExceeded { actual, maximum } => say_two_numbers(
                "SVG width is ",
                *actual,
                "; maximum is ",
                *maximum,
            ),
            DiagramRenderError::HeightLimitExceeded { actual, maximum } => say_two_numbers(
                "SVG height is ",
                *actual,
                "; maximum is ",
                *maximum,
            ),
            DiagramRenderError::SvgSizeLimitExceeded { actual, maximum } => say_two_numbers(
                "SVG is ",
                *actual,
                " bytes; maximum is ",
                *maximum,
            ),
        }
    }

    /// The message of the error.
    pub fn to_string(&self) -> (sentence: String)
        ensures
            sentence@ == self.message_text(text::debug_text(self.missing_name())),
    {
        let name = match self {
            DiagramRenderError::UnknownEdgeSource { source, .. } => text::quoted(source.as_str()),
            DiagramRenderError::UnknownEdgeTarget { target, .. } => text::quoted(target.as_str()),
            _ => text::quoted(String::new().as_str()),
        };
        self.message(name.as_str())
    }
}

/// The number of bytes of a text in UTF-8.
pub open spec fn byte_count(s: Seq<char>) -> nat {
    vstd::utf8::encode_utf8(s).len()
}

proof fn lemma_byte_count(s: Seq<char>)
    ensures
        s.len() <= byte_count(s),
    decreases s.len(),
{
    if s.len() > 0 {
        lemma_byte_count(s.drop_first());
    }
}

/// The label of the node at `k` is short enough.
pub open spec fn label_short(nodes: Seq<DiagramNode>, k: int) -> bool {
    byte_count(nodes[k].label@) <= MAX_LABEL_BYTES
}

pub open spec fn edge_label_short(edges: Seq<DiagramEdge>, k: int) -> bool {
    byte_count(edges[k].label@) <= MAX_LABEL_BYTES
}

pub open spec fn counts_within(diagram: Diagram) -> bool {
    &&& diagram.nodes@.len() <= MAX_NODES
    &&& diagram.edges@.len() <= MAX_EDGES
    &&& byte_count(diagram.title@) <= MAX_TITLE_BYTES
}

pub open spec fn node_labels_within(diagram: Diagram) -> bool {
    forall|k: int| 0 <= k < diagram.nodes@.len() ==> #[trigger] label_short(diagram.nodes@, k)
}

pub open spec fn edge_labels_within(diagram: Diagram) -> bool {
    forall|k: int| 0 <= k < diagram.edges@.len() ==> #[trigger] edge_label_short(diagram.edges@, k)
}

/// A diagram within all input limits.
pub open spec fn within_limits(diagram: Diagram) -> bool {
    counts_within(diagram) && node_labels_within(diagram) && edge_labels_within(diagram)
}

/// Why a diagram is over an input limit: the counts, the title, then the first
/// node label and the first edge label that is too long.
pub open spec fn over_limit(diagram: Diagram, error: DiagramRenderError) -> bool {
    match error {
        DiagramRenderError::TooManyNodes { actual, maximum } => {
            &&& diagram.nodes@.len() > MAX_NODES
            &&& actual == diagram.nodes@.len()
            &&& maximum == MAX_NODES
        },
        DiagramRenderError::TooManyEdges { actual, maximum } => {
            &&& diagram.nodes@.len() <= MAX_NODES
            &&& diagram.edges@.len() > MAX_EDGES
            &&& actual == diagram.edges@.len()
            &&& maximum == MAX_EDGES
        },
        DiagramRenderError::TitleTooLong { actual, maximum } => {
            &&& diagram.nodes@.len() <= MAX_NODES
            &&& diagram.edges@.len() <= MAX_EDGES
            &&& byte_count(diagram.title@) > MAX_TITLE_BYTES
            &&& actual == byte_count(diagram.title@)
            &&& maximum == MAX_TITLE_BYTES
        },
        DiagramRenderError::NodeLabelTooLong { node_index, actual, maximum } => {
            &&& counts_within(diagram)
            &&& node_index < diagram.nodes@.len()
            &&& !label_short(diagram.nodes@, node_index as int)
            &&& forall|k: int| 0 <= k < node_index ==> #[trigger] label_short(diagram.nodes@, k)
            &&& actual == byte_count(diagram.nodes@[node_index as int].label@)
            &&& maximum == MAX_LABEL_BYTES
        },
        DiagramRenderError::EdgeLabelTooLong { edge_index, actual, maximum } => {
            &&& counts_within(diagram)
            &&& node_labels_within(diagram)
            &&& edge_index < diagram.edges@.len()
            &&& !edge_label_short(diagram.edges@, edge_index as int)
            &&& forall|k: int|
                0 <= k < edge_index ==> #[trigger] edge_label_short(diagram.edges@, k)
            &&& actual == byte_count(diagram.edges@[edge_index as int].label@)
            &&& maximum == MAX_LABEL_BYTES
        },
        _ => false,
    }
}

fn validate_limits(diagram: &Diagram) -> (outcome: Result<(), DiagramRenderError>)
    ensures
        match outcome {
            Ok(()) => within_limits(*diagram),
            Err(error) => over_limit(*diagram, error),
        },
{
    if diagram.nodes.len() > MAX_NODES {
        return Err(
            DiagramRenderError::TooManyNodes { actual: diagram.nodes.len(), maximum: MAX_NODES },
        );
    }
    if diagram.edges.len() > MAX_EDGES {
        return Err(
            DiagramRenderError::TooManyEdges { actual: diagram.edges.len(), maximum: MAX_EDGES },
        );
    }
    let title_bytes = diagram.title.as_str().as_bytes().len();
    if title_bytes > MAX_TITLE_BYTES {
        return Err(
            DiagramRenderError::TitleTooLong { actual: title_bytes, maximum: MAX_TITLE_BYTES },
        );
    }
    let mut node_index: usize = 0;
    while node_index < diagram.nodes.len()
        invariant
            node_index <= diagram.nodes@.len(),
            counts_within(*diagram),
            forall|k: int| 0 <= k < node_index ==> #[trigger] label_short(diagram.nodes@, k),
        decreases diagram.nodes@.len() - node_index,
    {
        let actual = diagram.nodes[node_index].label.as_str().as_bytes().len();
        if actual > MAX_LABEL_BYTES {
            return Err(
                DiagramRenderError::NodeLabelTooLong {
                    node_index,
                    actual,
                    maximum: MAX_LABEL_BYTES,
                },
            );
        }
        assert(label_short(diagram.nodes@, node_index as int));
        node_index = node_index + 1;
    }
    let mut edge_index: usize = 0;
    while edge_index < diagram.edges.len()
        invariant
            edge_index <= diagram.edges@.len(),
            counts_within(*diagram),
            node_labels_within(*diagram),
            forall|k: int| 0 <= k < edge_index ==> #[trigger] edge_label_short(diagram.edges@, k),
        decreases diagram.edges@.len() - edge_index,
    {
        let actual = diagram.edges[edge_index].label.as_str().as_bytes().len();
        if actual > MAX_LABEL_BYTES {
            return Err(
                DiagramRenderError::EdgeLabelTooLong {
                    edge_index,
                    actual,
                    maximum: MAX_LABEL_BYTES,
                },
            );
        }
        assert(edge_label_short(diagram.edges@, edge_index as int));
        edge_index = edge_index + 1;
    }
    Ok(())
}

/// Whether `v` is the first node with an ID.
pub open spec fn is_node(nodes: Seq<DiagramNode>, id: Seq<char>, v: usize) -> bool {
    &&& v < nodes.len()
    &&& nodes[v as int].id@ == id
    &&& forall|i: int| 0 <= i < v ==> (#[trigger] nodes[i]).id@ != id
}

pub open spec fn has_node(nodes: Seq<DiagramNode>, id: Seq<char>) -> bool {
    exists|i: int| 0 <= i < nodes.len() && (#[trigger] nodes[i]).id@ == id
}

/// No two of the first `count` nodes share an ID.
pub open spec fn distinct_ids(nodes: Seq<DiagramNode>, count: int) -> bool {
    forall|i: int, j: int|
        0 <= i < j < count ==> (#[trigger] nodes[i]).id@ != (#[trigger] nodes[j]).id@
}

/// Both ends of the edge at `k` are nodes.
pub open spec fn edge_joined(diagram: Diagram, k: int) -> bool {
    has_node(diagram.nodes@, diagram.edges@[k].source@) && has_node(
        diagram.nodes@,
        diagram.edges@[k].target@,
    )
}

/// The ends of the edges of a diagram whose node IDs are distinct.
pub open spec fn resolves(diagram: Diagram, endpoints: Seq<(usize, usize)>) -> bool {
    &&& distinct_ids(diagram.nodes@, diagram.nodes@.len() as int)
    &&& endpoints.len() == diagram.edges@.len()
    &&& forall|k: int|
        0 <= k < endpoints.len() ==> is_node(
            diagram.nodes@,
            diagram.edges@[k].source@,
            (#[trigger] endpoints[k]).0,
        ) && is_node(diagram.nodes@, diagram.edges@[k].target@, endpoints[k].1)
}

/// Why the edges of a diagram cannot be resolved: the first repeated node ID,
/// then the first edge with an end that is no node.
pub open spec fn unresolvable(diagram: Diagram, error: DiagramRenderError) -> bool {
    let nodes = diagram.nodes@;
    match error {
        DiagramRenderError::DuplicateNodeId { first_node_index, duplicate_node_index } => {
            &&& first_node_index < duplicate_node_index < nodes.len()
            &&& nodes[first_node_index as int].id@ == nodes[duplicate_node_index as int].id@
            &&& distinct_ids(nodes, duplicate_node_index as int)
        },
        DiagramRenderError::UnknownEdgeSource { edge_index, source } => {
            &&& distinct_ids(nodes, nodes.len() as int)
            &&& edge_index < diagram.edges@.len()
            &&& forall|k: int| 0 <= k < edge_index ==> #[trigger] edge_joined(diagram, k)
            &&& !has_node(nodes, diagram.edges@[edge_index as int].source@)
            &&& source@ == diagram.edges@[edge_index as int].source@
        },
        DiagramRenderError::UnknownEdgeTarget { edge_index, target } => {
            &&& distinct_ids(nodes, nodes.len() as int)
            &&& edge_index < diagram.edges@.len()
            &&& forall|k: int| 0 <= k < edge_index ==> #[trigger] edge_joined(diagram, k)
            &&& has_node(nodes, diagram.edges@[edge_index as int].source@)
            &&& !has_node(nodes, diagram.edges@[edge_index as int].target@)
            &&& target@ == diagram.edges@[edge_index as int].target@
        },
        _ => false,
    }
}

/// The first node with an ID among the first `count`.
fn node_with_id(nodes: &Vec<DiagramNode>, id: &str, count: usize) -> (found: Option<usize>)
    requires
        count <= nodes@.len(),
    ensures
        match found {
            Some(v) => v < count && is_node(nodes@, id@, v),
            None => forall|i: int| 0 <= i < count ==> (#[trigger] nodes@[i]).id@ != id@,
        },
{
    let mut index: usize = 0;
    while index < count
        invariant
            index <= count <= nodes@.len(),
            forall|i: int| 0 <= i < index ==> (#[trigger] nodes@[i]).id@ != id@,
        decreases count - index,
    {
        if text::same_text(nodes[index].id.as_str(), id) {
            return Some(index);
        }
        index = index + 1;
    }
    None
}

fn resolve_endpoints(diagram: &Diagram) -> (resolved: Result<
    Vec<(usize, usize)>,
    DiagramRenderError,
>)
    ensures
        match resolved {
            Ok(endpoints) => resolves(*diagram, endpoints@),
            Err(error) => unresolvable(*diagram, error),
        },
{
    let nodes = &diagram.nodes;
    let mut node_index: usize = 0;
    while node_index < nodes.len()
        invariant
            node_index <= nodes@.len(),
            nodes@ == diagram.nodes@,
            distinct_ids(nodes@, node_index as int),
        decreases nodes@.len() - node_index,
    {
        if let Some(first_node_index) = node_with_id(
            nodes,
            nodes[node_index].id.as_str(),
            node_index,
        ) {
            return Err(
                DiagramRenderError::DuplicateNodeId {
                    first_node_index,
                    duplicate_node_index: node_index,
                },
            );
        }
        node_index = node_index + 1;
    }
    let mut endpoints: Vec<(usize, usize)> = Vec::new();
    let mut edge_index: usize = 0;
    while edge_index < diagram.edges.len()
        invariant
            edge_index <= diagram.edges@.len(),
            nodes@ == diagram.nodes@,
            distinct_ids(nodes@, nodes@.len() as int),
            endpoints@.len() == edge_index,
            forall|k: int| 0 <= k < edge_index ==> #[trigger] edge_joined(*diagram, k),
            forall|k: int|
                0 <= k < edge_index ==> is_node(
                    nodes@,
                    diagram.edges@[k].source@,
                    (#[trigger] endpoints@[k]).0,
                ) && is_node(nodes@, diagram.edges@[k].target@, endpoints@[k].1),
        decreases diagram.edges@.len() - edge_index,
    {
        let edge = &diagram.edges[edge_index];
        let source = match node_with_id(nodes, edge.source.as_str(), nodes.len()) {
            Some(source) => source,
            None => {
                return Err(
                    DiagramRenderError::UnknownEdgeSource {
                        edge_index,
                        source: edge.source.clone(),
                    },
                );
            },
        };
        assert(nodes@[source as int].id@ == edge.source@);
        let target = match node_with_id(nodes, edge.target.as_str(), nodes.len()) {
            Some(target) => target,
            None => {
                return Err(
                    DiagramRenderError::UnknownEdgeTarget {
                        edge_index,
                        target: edge.target.clone(),
                    },
                );
            },
        };
        assert(nodes@[target as int].id@ == edge.target@);
        assert(edge_joined(*diagram, edge_index as int));
        endpoints.push((source, target));
        edge_index = edge_index + 1;
    }
    Ok(endpoints)
}

/// A diagram within the input limits whose edges are resolved, with its layout.
pub open spec fn arranged(
    diagram: Diagram,
    endpoints: Seq<(usize, usize)>,
    drawn: Layout,
) -> bool {
    within_limits(diagram) && resolves(diagram, endpoints) && layout::laid_out(
        diagram,
        endpoints,
        drawn,
    )
}

/// The document that a diagram is rendered as.
pub open spec fn renders_as(diagram: Diagram, bytes: Seq<u8>) -> bool {
    exists|endpoints: Seq<(usize, usize)>, drawn: Layout|
        {
            &&& #[trigger] arranged(diagram, endpoints, drawn)
            &&& drawn.width <= MAX_DIMENSION
            &&& drawn.height <= MAX_DIMENSION
            &&& bytes.len() <= MAX_SVG_BYTES
            &&& bytes == vstd::utf8::encode_utf8(svg::document_text(diagram, drawn))
        }
}

/// Why a diagram that could be laid out is too large: its width, its height,
/// then the size of its document.
pub open spec fn too_large(diagram: Diagram, error: DiagramRenderError) -> bool {
    exists|endpoints: Seq<(usize, usize)>, drawn: Layout|
        {
            &&& #[trigger] arranged(diagram, endpoints, drawn)
            &&& match error {
                DiagramRenderError::WidthLimitExceeded { actual, maximum } => {
                    &&& drawn.width > MAX_DIMENSION
                    &&& actual == drawn.width
                    &&& maximum == MAX_DIMENSION
                },
                DiagramRenderError::HeightLimitExceeded { actual, maximum } => {
                    &&& drawn.width <= MAX_DIMENSION
                    &&& drawn.height > MAX_DIMENSION
                    &&& actual == drawn.height
                    &&& maximum == MAX_DIMENSION
                },
                DiagramRenderError::SvgSizeLimitExceeded { actual, maximum } => {
                    &&& drawn.width <= MAX_DIMENSION
                    &&& drawn.height <= MAX_DIMENSION
                    &&& svg::counted_bytes(svg::document_text(diagram, drawn)) > MAX_SVG_BYTES
                    &&& actual == svg::counted_bytes(svg::document_text(diagram, drawn))
                    &&& maximum == MAX_SVG_BYTES
                },
                _ => false,
            }
        }
}

/// Why a diagram is not rendered.
pub open spec fn refused(diagram: Diagram, error: DiagramRenderError) -> bool {
    ||| over_limit(diagram, error)
    ||| within_limits(diagram) && unresolvable(diagram, error)
    ||| too_large(diagram, error)
}

/// Renders a diagram as a self-contained, deterministic SVG document.
///
/// The renderer does not invoke external programs or load external resources.
/// All coordinates are integral and all model-provided text is XML-escaped.
pub fn render_svg(diagram: &Diagram) -> (rendered: Result<Vec<u8>, DiagramRenderError>)
    ensures
        match rendered {
            Ok(bytes) => renders_as(*diagram, bytes@),
            Err(error) => refused(*diagram, error),
        },
{
    match validate_limits(diagram) {
        Ok(()) => {},
        Err(error) => return Err(error),
    }
    let endpoints = match resolve_endpoints(diagram) {
        Ok(endpoints) => endpoints,
        Err(error) => return Err(error),
    };
    proof {
        lemma_fits(*diagram, endpoints@);
    }
    let drawn = layout::build(diagram, endpoints.as_slice());
    assert(arranged(*diagram, endpoints@, drawn));
    if drawn.width > MAX_DIMENSION {
        return Err(
            DiagramRenderError::WidthLimitExceeded {
                actual: drawn.width as usize,
                maximum: MAX_DIMENSION as usize,
            },
        );
    }
    if drawn.height > MAX_DIMENSION {
        return Err(
            DiagramRenderError::HeightLimitExceeded {
                actual: drawn.height as usize,
                maximum: MAX_DIMENSION as usize,
            },
        );
    }
    let rendered = svg::render(diagram, &drawn, MAX_SVG_BYTES);
    if rendered.byte_len > MAX_SVG_BYTES {
        return Err(
            DiagramRenderError::SvgSizeLimitExceeded {
                actual: rendered.byte_len,
                maximum: MAX_SVG_BYTES,
            },
        );
    }
    let bytes = vstd::slice::slice_to_vec(rendered.document.as_str().as_bytes());
    Ok(bytes)
}

pub proof fn lemma_fits(diagram: Diagram, endpoints: Seq<(usize, usize)>)
    requires
        within_limits(diagram),
        resolves(diagram, endpoints),
    ensures
        layout::fits(diagram, endpoints),
{
    lemma_byte_count(diagram.title@);
    assert forall|v: int| 0 <= v < diagram.nodes@.len() implies (
    #[trigger] diagram.nodes@[v]).label@.len() <= 128 by {
        assert(label_short(diagram.nodes@, v));
        lemma_byte_count(diagram.nodes@[v].label@);
    }
    assert forall|e: int| 0 <= e < diagram.edges@.len() implies (
    #[trigger] diagram.edges@[e]).label@.len() <= 128 by {
        assert(edge_label_short(diagram.edges@, e));
        lemma_byte_count(diagram.edges@[e].label@);
    }
}

proof fn lemma_same_endpoints(
    diagram: Diagram,
    first: Seq<(usize, usize)>,
    second: Seq<(usize, usize)>,
)
    requires
        resolves(diagram, first),
        resolves(diagram, second),
    ensures
        first == second,
{
    assert forall|k: int| 0 <= k < first.len() implies first[k] == second[k] by {
        lemma_same_node(
            diagram.nodes@,
            diagram.edges@[k].source@,
            first[k].0,
            second[k].0,
        );
        lemma_same_node(
            diagram.nodes@,
            diagram.edges@[k].target@,
            first[k].1,
            second[k].1,
        );
    }
    assert(first =~= second);
}

proof fn lemma_same_node(nodes: Seq<DiagramNode>, id: Seq<char>, u: usize, v: usize)
    requires
        is_node(nodes, id, u),
        is_node(nodes, id, v),
    ensures
        u == v,
{
    if u < v {
        assert(nodes[u as int].id@ != id);
    } else if v < u {
        assert(nodes[v as int].id@ != id);
    }
}

proof fn lemma_same_layout(
    diagram: Diagram,
    first_ends: Seq<(usize, usize)>,
    first: Layout,
    second_ends: Seq<(usize, usize)>,
    second: Layout,
)
    requires
        arranged(diagram, first_ends, first),
        arranged(diagram, second_ends, second),
    ensures
        first.width == second.width,
        first.height == second.height,
        svg::document_text(diagram, first) == svg::document_text(diagram, second),
{
    lemma_same_endpoints(diagram, first_ends, second_ends);
    lemma_fits(diagram, first_ends);
    let a = choose|plan: layout::Plan| layout::follows(diagram, first_ends, plan, first);
    let b = choose|plan: layout::Plan| layout::follows(diagram, second_ends, plan, second);
    layout::law_plan_is_unique(
        diagram,
        first_ends,
        a,
        (first.width as int, first.height as int),
        b,
        (second.width as int, second.height as int),
    );
    assert forall|i: int| 0 <= i < first.nodes@.len() implies svg::same_node(
        diagram,
        #[trigger] first.nodes@[i],
        diagram,
        second.nodes@[i],
    ) by {
        assert(layout::node_follows(diagram, a, first.nodes@[i], a.order[i]));
        assert(layout::node_follows(diagram, b, second.nodes@[i], b.order[i]));
    }
    assert forall|i: int| 0 <= i < first.edges@.len() implies svg::same_edge(
        diagram,
        #[trigger] first.edges@[i],
        diagram,
        second.edges@[i],
    ) by {
        assert(layout::edge_follows(
            diagram,
            first_ends,
            a,
            first.edges@[i],
            a.edge_order[i],
        ));
        assert(layout::edge_follows(
            diagram,
            second_ends,
            b,
            second.edges@[i],
            b.edge_order[i],
        ));
    }
    svg::lemma_same_document(diagram, first, diagram, second);
}

/// Rendering is deterministic: a diagram has one document, byte for byte.
pub proof fn law_rendering_is_deterministic(diagram: Diagram, first: Seq<u8>, second: Seq<u8>)
    requires
        renders_as(diagram, first),
        renders_as(diagram, second),
    ensures
        first == second,
{
    let (first_ends, a) = choose|endpoints: Seq<(usize, usize)>, drawn: Layout|
        {
            &&& #[trigger] arranged(diagram, endpoints, drawn)
            &&& drawn.width <= MAX_DIMENSION
            &&& drawn.height <= MAX_DIMENSION
            &&& first.len() <= MAX_SVG_BYTES
            &&& first == vstd::utf8::encode_utf8(svg::document_text(diagram, drawn))
        };
    let (second_ends, b) = choose|endpoints: Seq<(usize, usize)>, drawn: Layout|
        {
            &&& #[trigger] arranged(diagram, endpoints, drawn)
            &&& drawn.width <= MAX_DIMENSION
            &&& drawn.height <= MAX_DIMENSION
            &&& second.len() <= MAX_SVG_BYTES
            &&& second == vstd::utf8::encode_utf8(svg::document_text(diagram, drawn))
        };
    lemma_same_layout(diagram, first_ends, a, second_ends, b);
}

/// A diagram that is rendered is not refused.
pub proof fn law_rendered_diagram_is_not_refused(
    diagram: Diagram,
    bytes: Seq<u8>,
    error: DiagramRenderError,
)
    requires
        renders_as(diagram, bytes),
    ensures
        !refused(diagram, error),
{
    let (ends, a) = choose|endpoints: Seq<(usize, usize)>, drawn: Layout|
        {
            &&& #[trigger] arranged(diagram, endpoints, drawn)
            &&& drawn.width <= MAX_DIMENSION
            &&& drawn.height <= MAX_DIMENSION
            &&& bytes.len() <= MAX_SVG_BYTES
            &&& bytes == vstd::utf8::encode_utf8(svg::document_text(diagram, drawn))
        };
    if over_limit(diagram, error) {
        match error {
            DiagramRenderError::NodeLabelTooLong { node_index, .. } => {
                assert(label_short(diagram.nodes@, node_index as int));
            },
            DiagramRenderError::EdgeLabelTooLong { edge_index, .. } => {
                assert(edge_label_short(diagram.edges@, edge_index as int));
            },
            _ => {},
        }
    }
    if unresolvable(diagram, error) {
        match error {
            DiagramRenderError::UnknownEdgeSource { edge_index, .. } => {
                let k = edge_index as int;
                assert(is_node(diagram.nodes@, diagram.edges@[k].source@, ends[k].0));
            },
            DiagramRenderError::UnknownEdgeTarget { edge_index, .. } => {
                let k = edge_index as int;
                assert(is_node(diagram.nodes@, diagram.edges@[k].target@, ends[k].1));
            },
            _ => {},
        }
    }
    if too_large(diagram, error) {
        let (other_ends, b) = choose|endpoints: Seq<(usize, usize)>, drawn: Layout|
            {
                &&& #[trigger] arranged(diagram, endpoints, drawn)
                &&& match error {
                    DiagramRenderError::WidthLimitExceeded { actual, maximum } => {
                        &&& drawn.width > MAX_DIMENSION
                        &&& actual == drawn.width
                        &&& maximum == MAX_DIMENSION
                    },
                    DiagramRenderError::HeightLimitExceeded { actual, maximum } => {
                        &&& drawn.width <= MAX_DIMENSION
                        &&& drawn.height > MAX_DIMENSION
                        &&& actual == drawn.height
                        &&& maximum == MAX_DIMENSION
                    },
                    DiagramRenderError::SvgSizeLimitExceeded { actual, maximum } => {
                        &&& drawn.width <= MAX_DIMENSION
                        &&& drawn.height <= MAX_DIMENSION
                        &&& svg::counted_bytes(svg::document_text(diagram, drawn)) > MAX_SVG_BYTES
                        &&& actual == svg::counted_bytes(svg::document_text(diagram, drawn))
                        &&& maximum == MAX_SVG_BYTES
                    },
                    _ => false,
                }
            };
        lemma_same_layout(diagram, ends, a, other_ends, b);
    }
}

/// A layout of a diagram is one of any diagram with the same content.
proof fn lemma_follows_kept(
    first: Diagram,
    second: Diagram,
    endpoints: Seq<(usize, usize)>,
    drawn: Layout,
)
    requires
        first.kind == second.kind,
        first.title == second.title,
        first.nodes == second.nodes,
        first.edges == second.edges,
        arranged(first, endpoints, drawn),
    ensures
        arranged(second, endpoints, drawn),
        svg::document_text(first, drawn) == svg::document_text(second, drawn),
{
    let plan = choose|plan: layout::Plan| layout::follows(first, endpoints, plan, drawn);
    assert forall|i: int| 0 <= i < plan.order.len() implies layout::node_follows(
        second,
        plan,
        #[trigger] drawn.nodes@[i],
        plan.order[i],
    ) by {
        assert(layout::node_follows(first, plan, drawn.nodes@[i], plan.order[i]));
    }
    assert forall|i: int| 0 <= i < plan.edge_order.len() implies layout::edge_follows(
        second,
        endpoints,
        plan,
        #[trigger] drawn.edges@[i],
        plan.edge_order[i],
    ) by {
        assert(layout::edge_follows(first, endpoints, plan, drawn.edges@[i], plan.edge_order[i]));
    }
    assert(layout::follows(second, endpoints, plan, drawn));
    svg::lemma_same_document(first, drawn, second, drawn);
}

proof fn lemma_artifact_unread(
    first: Diagram,
    second: Diagram,
    bytes: Seq<u8>,
    error: DiagramRenderError,
)
    requires
        first.kind == second.kind,
        first.title == second.title,
        first.nodes == second.nodes,
        first.edges == second.edges,
    ensures
        renders_as(first, bytes) ==> renders_as(second, bytes),
        refused(first, error) ==> refused(second, error),
{
    if renders_as(first, bytes) {
        let (endpoints, drawn) = choose|endpoints: Seq<(usize, usize)>, drawn: Layout|
            {
                &&& #[trigger] arranged(first, endpoints, drawn)
                &&& drawn.width <= MAX_DIMENSION
                &&& drawn.height <= MAX_DIMENSION
                &&& bytes.len() <= MAX_SVG_BYTES
                &&& bytes == vstd::utf8::encode_utf8(svg::document_text(first, drawn))
            };
        lemma_follows_kept(first, second, endpoints, drawn);
    }
    if too_large(first, error) {
        let (endpoints, drawn) = choose|endpoints: Seq<(usize, usize)>, drawn: Layout|
            {
                &&& #[trigger] arranged(first, endpoints, drawn)
                &&& match error {
                    DiagramRenderError::WidthLimitExceeded { actual, maximum } => {
                        &&& drawn.width > MAX_DIMENSION
                        &&& actual == drawn.width
                        &&& maximum == MAX_DIMENSION
                    },
                    DiagramRenderError::HeightLimitExceeded { actual, maximum } => {
                        &&& drawn.width <= MAX_DIMENSION
                        &&& drawn.height > MAX_DIMENSION
                        &&& actual == drawn.height
                        &&& maximum == MAX_DIMENSION
                    },
                    DiagramRenderError::SvgSizeLimitExceeded { actual, maximum } => {
                        &&& drawn.width <= MAX_DIMENSION
                        &&& drawn.height <= MAX_DIMENSION
                        &&& svg::counted_bytes(svg::document_text(first, drawn)) > MAX_SVG_BYTES
                        &&& actual == svg::counted_bytes(svg::document_text(first, drawn))
                        &&& maximum == MAX_SVG_BYTES
                    },
                    _ => false,
                }
            };
        lemma_follows_kept(first, second, endpoints, drawn);
    }
    if unresolvable(first, error) {
        assert forall|k: int| edge_joined(first, k) implies #[trigger] edge_joined(second, k) by {}
        assert(unresolvable(second, error));
    }
}

/// The artifact that a diagram carries has no part in its rendering: a diagram is
/// rendered, or refused, as the same diagram without one.
pub proof fn law_artifact_has_no_part(diagram: Diagram, bytes: Seq<u8>, error: DiagramRenderError)
    ensures
        renders_as(diagram, bytes) == renders_as((Diagram { artifact: None, ..diagram }), bytes),
        refused(diagram, error) == refused((Diagram { artifact: None, ..diagram }), error),
{
    let bare = Diagram { artifact: None, ..diagram };
    lemma_artifact_unread(diagram, bare, bytes, error);
    lemma_artifact_unread(bare, diagram, bytes, error);
}

} // verus!
