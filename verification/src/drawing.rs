//! What a reader sees in the document of a diagram: a box for every node, and for every
//! edge a path from the box of its source to the box of its target.
use crate::diagram;
use crate::evidence::{Diagram, DiagramEdge, DiagramKind, DiagramNode};
use crate::id;
use crate::layers;
use crate::layout;
use crate::layout::{
    BezierPath, EdgeLayout, Layout, NodeLayout, Plan, Point, Rect, HEIGHT_BOUND, NODE_MIN_HEIGHT,
};
use crate::spacing;
use crate::svg;
use crate::text;
use vstd::prelude::*;

verus! {

/// IDs in hexadecimal with a space between two of them.
pub open spec fn spaced(values: Seq<u128>) -> Seq<char>
    decreases values.len(),
{
    if values.len() == 0 {
        Seq::empty()
    } else if values.len() == 1 {
        id::id_text(values[0])
    } else {
        spaced(values.drop_last()) + " "@ + id::id_text(values.last())
    }
}

/// The text of the group of a node, behind what stands before it, up to its box.
pub open spec fn box_text(
    before: Seq<char>,
    number: int,
    focused: bool,
    node: DiagramNode,
    rect: Rect,
) -> Seq<char> {
    before + "  <g id=\"node-"@ + text::signed(number) + "\" class=\""@ + (if focused {
        "node focus-node"@
    } else {
        "node"@
    })
        + "\" data-claim-ids=\""@ + spaced(layout::claim_values(node.claim_ids@))
        + "\" data-evidence-ids=\""@ + spaced(layout::evidence_values(node.evidence_ids@))
        + "\">\n    <title>"@ + svg::escaped(node.label@) + "</title>\n"@ + "    <rect x=\""@
        + text::signed(rect.x as int) + "\" y=\""@ + text::signed(rect.y as int) + "\" width=\""@
        + text::signed(rect.width as int) + "\" height=\""@ + text::signed(rect.height as int)
        + "\" rx=\"12\" fill=\""@
}

/// Whether a document shows a node, in the focus or not, as a box.
#[verifier::opaque]
pub open spec fn box_drawn(
    document: Seq<char>,
    node: DiagramNode,
    focused: bool,
    rect: Rect,
) -> bool {
    exists|before: Seq<char>, number: int|
        leads(
            #[trigger] box_text(
                before,
                number,
                focused,
                node,
                rect,
            ),
            document,
        )
}

/// The text of the group of an edge, behind what stands before it, up to the arrowhead
/// of its path.
pub open spec fn path_text(
    before: Seq<char>,
    number: int,
    dashed: bool,
    edge: DiagramEdge,
    source: DiagramNode,
    target: DiagramNode,
    path: BezierPath,
) -> Seq<char> {
    let title = before + "  <g id=\"edge-"@ + text::signed(number) + "\" class=\""@ + (if dashed {
        "edge cycle-edge"@
    } else {
        "edge"@
    }) + "\" data-claim-ids=\""@ + spaced(layout::claim_values(edge.claim_ids@))
        + "\" data-evidence-ids=\""@ + spaced(layout::evidence_values(edge.evidence_ids@))
        + "\">\n    <title>"@ + svg::escaped(source.label@) + " -&gt; "@ + svg::escaped(
        target.label@,
    );
    let line = (if svg::visible(edge.label@) {
        title + ": "@ + svg::escaped(edge.label@)
    } else {
        title
    }) + "</title>\n"@ + "    <path d=\"M "@ + text::signed(path.start.x as int) + " "@
        + text::signed(path.start.y as int) + " C "@ + text::signed(path.control_1.x as int)
        + " "@ + text::signed(path.control_1.y as int) + " "@ + text::signed(
        path.control_2.x as int,
    ) + " "@ + text::signed(path.control_2.y as int) + " "@ + text::signed(path.end.x as int)
        + " "@ + text::signed(path.end.y as int)
        + "\" fill=\"none\" stroke=\"#7dd3fc\" stroke-width=\"2\" stroke-linecap=\"round\" stroke-linejoin=\"round\" marker-end=\"url(#arrowhead-0)\""@;
    (if dashed {
        line + " stroke-dasharray=\"8 7\""@
    } else {
        line
    }) + "/>\n"@
}

/// Whether a document shows an edge as a path that ends in an arrowhead.
#[verifier::opaque]
pub open spec fn path_drawn(
    document: Seq<char>,
    dashed: bool,
    edge: DiagramEdge,
    source: DiagramNode,
    target: DiagramNode,
    path: BezierPath,
) -> bool {
    exists|before: Seq<char>, number: int|
        leads(
            #[trigger] path_text(before, number, dashed, edge, source, target, path),
            document,
        )
}

/// Whether a text begins with another.
pub open spec fn leads(first: Seq<char>, whole: Seq<char>) -> bool {
    first.len() <= whole.len() && whole.take(first.len() as int) == first
}

/// Whether a point lies on the border of a rectangle.
pub open spec fn on_border(point: Point, rect: Rect) -> bool {
    ||| (point.x == rect.x || point.x == rect.x + rect.width) && rect.y <= point.y <= rect.y
        + rect.height
    ||| (point.y == rect.y || point.y == rect.y + rect.height) && rect.x <= point.x <= rect.x
        + rect.width
}

/// Whether a chain of edges of a diagram, the first of which begins at a node and each
/// of which begins where the one before it ends, ends at a node.
pub open spec fn chain(whole: Diagram, edges: Seq<int>, from: Seq<char>, to: Seq<char>) -> bool {
    &&& edges.len() > 0
    &&& forall|i: int| 0 <= i < edges.len() ==> 0 <= #[trigger] edges[i] < whole.edges@.len()
    &&& whole.edges@[edges[0]].source@ == from
    &&& forall|i: int|
        0 < i < edges.len() ==> whole.edges@[#[trigger] edges[i]].source@
            == whole.edges@[edges[i - 1]].target@
    &&& whole.edges@[edges.last()].target@ == to
}

/// Whether an edge lies on a cycle.
#[verifier::opaque]
pub open spec fn on_cycle(whole: Diagram, e: int) -> bool {
    ||| whole.edges@[e].source@ == whole.edges@[e].target@
    ||| exists|edges: Seq<int>|
        chain(whole, edges, whole.edges@[e].target@, whole.edges@[e].source@)
}

/// Whether the path of an edge on no cycle runs in the direction of its diagram: from
/// the right side of one box to the left side of the other in an architecture diagram,
/// from the bottom to the top in a flow diagram.
pub open spec fn runs_forward(kind: DiagramKind, path: BezierPath, from: Rect, to: Rect) -> bool {
    match kind {
        DiagramKind::Architecture => {
            &&& path.start.x == from.x + from.width < to.x == path.end.x
        },
        DiagramKind::Flow => {
            &&& path.start.y == from.y + from.height < to.y == path.end.y
        },
        DiagramKind::Relationship => true,
    }
}

pub broadcast proof fn lemma_leads_on(first: Seq<char>, middle: Seq<char>, end: Seq<char>)
    requires
        leads(first, middle),
    ensures
        #[trigger] leads(first, middle + end),
{
    assert((middle + end).take(first.len() as int) =~= middle.take(first.len() as int));
}

pub proof fn lemma_leads_self(s: Seq<char>)
    ensures
        leads(s, s),
{
    assert(s.take(s.len() as int) =~= s);
}

pub proof fn lemma_leads_through(first: Seq<char>, middle: Seq<char>, last: Seq<char>)
    requires
        leads(first, middle),
        leads(middle, last),
    ensures
        leads(first, last),
{
    assert(last.take(first.len() as int) =~= middle.take(first.len() as int));
}

/// IDs behind a text.
broadcast proof fn lemma_ids_spaced(shown: Seq<char>, values: Seq<u128>)
    ensures
        #[trigger] svg::with_ids(shown, values) == shown + spaced(values),
    decreases values.len(),
{
    reveal_strlit(" ");
    if values.len() == 0 {
        assert(shown + spaced(values) =~= shown);
    } else {
        lemma_ids_spaced(shown, values.drop_last());
        if values.len() == 1 {
            assert(shown + spaced(values.drop_last()) =~= shown);
        }
        assert(svg::with_ids(shown, values) =~= shown + spaced(values));
    }
}

pub broadcast proof fn lemma_lines_follow(
    first: Seq<char>,
    shown: Seq<char>,
    lines: Seq<Seq<char>>,
    x: int,
    first_y: int,
    line_height: int,
)
    requires
        leads(first, shown),
    ensures
        #[trigger] leads(first, svg::with_tspans(shown, lines, x, first_y, line_height)),
    decreases lines.len(),
{
    broadcast use lemma_leads_on;

    if lines.len() > 0 {
        lemma_lines_follow(first, shown, lines.drop_last(), x, first_y, line_height);
    }
}

/// The text of an edge.
pub proof fn lemma_edge_text(shown: Seq<char>, whole: Diagram, drawn: EdgeLayout, sequence: int)
    ensures
        leads(shown, svg::with_edge(shown, whole, drawn, sequence)),
        leads(
            path_text(
                shown,
                sequence,
                drawn.dashed,
                whole.edges@[drawn.diagram_index as int],
                whole.nodes@[drawn.source_index as int],
                whole.nodes@[drawn.target_index as int],
                drawn.path,
            ),
            svg::with_edge(shown, whole, drawn, sequence),
        ),
{
    broadcast use {lemma_leads_on, lemma_lines_follow};

    let edge = whole.edges@[drawn.diagram_index as int];
    let source = whole.nodes@[drawn.source_index as int];
    let target = whole.nodes@[drawn.target_index as int];
    let told = path_text(shown, sequence, drawn.dashed, edge, source, target, drawn.path);
    let head = svg::with_edge_head(shown, whole, drawn, sequence);
    let line = svg::with_edge_path(head, drawn);
    lemma_leads_self(shown);
    assert(line == told) by {
        broadcast use lemma_ids_spaced;

        reveal(svg::with_edge_head);
        reveal(svg::with_edge_path);
    }
    assert(leads(shown, told));
    assert(leads(line, svg::with_edge(shown, whole, drawn, sequence))) by {
        reveal(svg::with_edge);
        reveal(svg::with_edge_label);
        lemma_leads_self(line);
    }
    lemma_leads_through(shown, line, svg::with_edge(shown, whole, drawn, sequence));
}

/// The text of a node.
pub proof fn lemma_node_text(shown: Seq<char>, whole: Diagram, drawn: NodeLayout, sequence: int)
    ensures
        leads(shown, svg::with_node(shown, whole, drawn, sequence)),
        leads(
            box_text(
                shown,
                sequence,
                drawn.focused,
                whole.nodes@[drawn.diagram_index as int],
                drawn.rect,
            ),
            svg::with_node(shown, whole, drawn, sequence),
        ),
{
    broadcast use {lemma_leads_on, lemma_lines_follow, lemma_ids_spaced};

    let node = whole.nodes@[drawn.diagram_index as int];
    let told = box_text(shown, sequence, drawn.focused, node, drawn.rect);
    lemma_leads_self(shown);
    lemma_leads_self(told);
    assert(leads(shown, told));
    assert(leads(told, svg::with_node(shown, whole, drawn, sequence))) by {
        reveal(svg::with_node);
    }
    lemma_leads_through(shown, told, svg::with_node(shown, whole, drawn, sequence));
}

/// Every edge of a list stands in the text.
proof fn lemma_edges_text(shown: Seq<char>, whole: Diagram, edges: Seq<EdgeLayout>, k: int)
    requires
        0 <= k < edges.len(),
    ensures
        path_drawn(
            svg::with_edges(shown, whole, edges),
            edges[k].dashed,
            whole.edges@[edges[k].diagram_index as int],
            whole.nodes@[edges[k].source_index as int],
            whole.nodes@[edges[k].target_index as int],
            edges[k].path,
        ),
    decreases edges.len(),
{
    reveal(path_drawn);
    let earlier = svg::with_edges(shown, whole, edges.drop_last());
    let last = edges.len() - 1;
    let drawn = edges[k];
    let edge = whole.edges@[drawn.diagram_index as int];
    let source = whole.nodes@[drawn.source_index as int];
    let target = whole.nodes@[drawn.target_index as int];
    lemma_edge_text(earlier, whole, edges[last], last);
    if k < last {
        lemma_edges_text(shown, whole, edges.drop_last(), k);
        let (before, number) = choose|before: Seq<char>, number: int|
            leads(
                #[trigger] path_text(
                    before,
                    number,
                    drawn.dashed,
                    edge,
                    source,
                    target,
                    drawn.path,
                ),
                earlier,
            );
        lemma_leads_through(
            path_text(before, number, drawn.dashed, edge, source, target, drawn.path),
            earlier,
            svg::with_edges(shown, whole, edges),
        );
    }
}

pub proof fn lemma_nodes_text(shown: Seq<char>, whole: Diagram, nodes: Seq<NodeLayout>)
    ensures
        leads(shown, svg::with_nodes(shown, whole, nodes)),
        forall|k: int|
            0 <= k < nodes.len() ==> box_drawn(
                svg::with_nodes(shown, whole, nodes),
                whole.nodes@[(#[trigger] nodes[k]).diagram_index as int],
                nodes[k].focused,
                nodes[k].rect,
            ),
    decreases nodes.len(),
{
    reveal(box_drawn);
    if nodes.len() == 0 {
        lemma_leads_self(shown);
    } else {
        let earlier = svg::with_nodes(shown, whole, nodes.drop_last());
        let whole_text = svg::with_nodes(shown, whole, nodes);
        let last = nodes.len() - 1;
        lemma_nodes_text(shown, whole, nodes.drop_last());
        lemma_node_text(earlier, whole, nodes[last], last);
        lemma_leads_through(shown, earlier, whole_text);
        assert forall|k: int| 0 <= k < nodes.len() implies box_drawn(
            whole_text,
            whole.nodes@[(#[trigger] nodes[k]).diagram_index as int],
            nodes[k].focused,
            nodes[k].rect,
        ) by {
            if k < last {
                assert(nodes.drop_last()[k] == nodes[k]);
                lemma_box_stays(
                    earlier,
                    whole_text,
                    whole.nodes@[nodes[k].diagram_index as int],
                    nodes[k].focused,
                    nodes[k].rect,
                );
            }
        }
    }
}

proof fn lemma_box_stays(
    first: Seq<char>,
    whole: Seq<char>,
    node: DiagramNode,
    focused: bool,
    rect: Rect,
)
    requires
        box_drawn(first, node, focused, rect),
        leads(first, whole),
    ensures
        box_drawn(whole, node, focused, rect),
{
    reveal(box_drawn);
    let (before, number) = choose|before: Seq<char>, number: int|
        leads(#[trigger] box_text(before, number, focused, node, rect), first);
    lemma_leads_through(box_text(before, number, focused, node, rect), first, whole);
}

proof fn lemma_path_stays(
    first: Seq<char>,
    whole: Seq<char>,
    dashed: bool,
    edge: DiagramEdge,
    source: DiagramNode,
    target: DiagramNode,
    path: BezierPath,
)
    requires
        path_drawn(first, dashed, edge, source, target, path),
        leads(first, whole),
    ensures
        path_drawn(whole, dashed, edge, source, target, path),
{
    reveal(path_drawn);
    let (before, number) = choose|before: Seq<char>, number: int|
        leads(#[trigger] path_text(before, number, dashed, edge, source, target, path), first);
    lemma_leads_through(
        path_text(before, number, dashed, edge, source, target, path),
        first,
        whole,
    );
}

/// What the document of a layout shows.
pub proof fn lemma_document_shows(whole: Diagram, drawn: Layout)
    ensures
        forall|k: int|
            0 <= k < drawn.nodes@.len() ==> box_drawn(
                svg::document_text(whole, drawn),
                whole.nodes@[(#[trigger] drawn.nodes@[k]).diagram_index as int],
                drawn.nodes@[k].focused,
                drawn.nodes@[k].rect,
            ),
        forall|k: int|
            0 <= k < drawn.edges@.len() ==> path_drawn(
                svg::document_text(whole, drawn),
                (#[trigger] drawn.edges@[k]).dashed,
                whole.edges@[drawn.edges@[k].diagram_index as int],
                whole.nodes@[drawn.edges@[k].source_index as int],
                whole.nodes@[drawn.edges@[k].target_index as int],
                drawn.edges@[k].path,
            ),
{
    let head = svg::with_header(
        svg::opening(whole, drawn.width as int, drawn.height as int),
        whole,
        drawn.width as int,
    );
    let lines = svg::with_edges(head, whole, drawn.edges@);
    let boxes = svg::with_nodes(lines, whole, drawn.nodes@);
    let document = svg::document_text(whole, drawn);
    lemma_nodes_text(lines, whole, drawn.nodes@);
    lemma_leads_self(boxes);
    lemma_leads_on(boxes, boxes, "</svg>\n"@);
    lemma_leads_through(lines, boxes, document);
    assert forall|k: int| 0 <= k < drawn.nodes@.len() implies box_drawn(
        document,
        whole.nodes@[(#[trigger] drawn.nodes@[k]).diagram_index as int],
        drawn.nodes@[k].focused,
        drawn.nodes@[k].rect,
    ) by {
        lemma_box_stays(
            boxes,
            document,
            whole.nodes@[drawn.nodes@[k].diagram_index as int],
            drawn.nodes@[k].focused,
            drawn.nodes@[k].rect,
        );
    }
    assert forall|k: int| 0 <= k < drawn.edges@.len() implies path_drawn(
        document,
        (#[trigger] drawn.edges@[k]).dashed,
        whole.edges@[drawn.edges@[k].diagram_index as int],
        whole.nodes@[drawn.edges@[k].source_index as int],
        whole.nodes@[drawn.edges@[k].target_index as int],
        drawn.edges@[k].path,
    ) by {
        lemma_edges_text(head, whole, drawn.edges@, k);
        lemma_path_stays(
            lines,
            document,
            drawn.edges@[k].dashed,
            whole.edges@[drawn.edges@[k].diagram_index as int],
            whole.nodes@[drawn.edges@[k].source_index as int],
            whole.nodes@[drawn.edges@[k].target_index as int],
            drawn.edges@[k].path,
        );
    }
}

/// The routes begin and end on the borders of the boxes.
proof fn lemma_route_on_borders(
    kind: DiagramKind,
    source: Rect,
    target: Rect,
    self_edge: bool,
    dashed: bool,
)
    requires
        0 <= source.x <= 1_000_000,
        0 <= source.y <= 1_000_000,
        0 <= source.width <= 1_000_000,
        24 <= source.height <= 1_000_000,
        0 <= target.x <= 1_000_000,
        0 <= target.y <= 1_000_000,
        0 <= target.width <= 1_000_000,
        24 <= target.height <= 1_000_000,
        self_edge ==> source == target,
    ensures
        on_border(layout::edge_route(kind, source, target, self_edge, dashed).0.start, source),
        on_border(layout::edge_route(kind, source, target, self_edge, dashed).0.end, target),
{
}

/// A chain of edges as steps between nodes.
proof fn lemma_chain_steps(
    whole: Diagram,
    endpoints: Seq<(usize, usize)>,
    edges: Seq<int>,
    u: int,
    v: int,
)
    requires
        diagram::resolves(whole, endpoints),
        0 <= u < whole.nodes@.len(),
        0 <= v < whole.nodes@.len(),
        chain(whole, edges, whole.nodes@[u].id@, whole.nodes@[v].id@),
    ensures
        layers::steps(endpoints, edges.len(), u, v),
    decreases edges.len(),
{
    let last = edges.last();
    let w = endpoints[last].0 as int;
    assert(edges[edges.len() - 1] == last);
    assert(diagram::is_node(whole.nodes@, whole.edges@[last].source@, endpoints[last].0));
    assert(diagram::is_node(whole.nodes@, whole.edges@[last].target@, endpoints[last].1));
    assert(whole.nodes@[endpoints[last].1 as int].id@ == whole.nodes@[v].id@);
    assert(endpoints[last].1 == v);
    if edges.len() == 1 {
        assert(whole.nodes@[w].id@ == whole.nodes@[u].id@);
        assert(layers::steps(endpoints, 0, u, w));
    } else {
        let rest = edges.drop_last();
        assert forall|i: int| 0 <= i < rest.len() implies 0 <= #[trigger] rest[i]
            < whole.edges@.len() by {
            assert(rest[i] == edges[i]);
        }
        assert forall|i: int| 0 < i < rest.len() implies whole.edges@[#[trigger] rest[i]].source@
            == whole.edges@[rest[i - 1]].target@ by {
            assert(rest[i] == edges[i] && rest[i - 1] == edges[i - 1]);
        }
        assert(rest.last() == edges[edges.len() - 2]);
        assert(chain(whole, rest, whole.nodes@[u].id@, whole.nodes@[w].id@));
        lemma_chain_steps(whole, endpoints, rest, u, w);
    }
    assert(layers::edge(endpoints, w, v));
    assert(layers::steps(endpoints, (edges.len() - 1) as nat, u, w));
}

/// Steps between nodes as a chain of edges.
proof fn lemma_steps_chain(
    whole: Diagram,
    endpoints: Seq<(usize, usize)>,
    count: nat,
    u: int,
    v: int,
) -> (edges: Seq<int>)
    requires
        diagram::resolves(whole, endpoints),
        0 <= u < whole.nodes@.len(),
        0 <= v < whole.nodes@.len(),
        count > 0,
        layers::steps(endpoints, count, u, v),
    ensures
        chain(whole, edges, whole.nodes@[u].id@, whole.nodes@[v].id@),
    decreases count,
{
    let w = choose|w: int|
        layers::steps(endpoints, (count - 1) as nat, u, w) && #[trigger] layers::edge(
            endpoints,
            w,
            v,
        );
    let e = choose|e: int|
        0 <= e < endpoints.len() && (#[trigger] endpoints[e]).0 == w && endpoints[e].1 == v;
    assert(diagram::is_node(whole.nodes@, whole.edges@[e].source@, endpoints[e].0));
    assert(diagram::is_node(whole.nodes@, whole.edges@[e].target@, endpoints[e].1));
    if count == 1 {
        seq![e]
    } else {
        let rest = lemma_steps_chain(whole, endpoints, (count - 1) as nat, u, w);
        let edges = rest.push(e);
        assert forall|i: int| 0 <= i < edges.len() implies 0 <= #[trigger] edges[i]
            < whole.edges@.len() by {
            if i < rest.len() {
                assert(edges[i] == rest[i]);
            }
        }
        assert forall|i: int| 0 < i < edges.len() implies whole.edges@[#[trigger] edges[i]].source@
            == whole.edges@[edges[i - 1]].target@ by {
            if i < rest.len() {
                assert(edges[i] == rest[i] && edges[i - 1] == rest[i - 1]);
            } else {
                assert(edges[i - 1] == rest.last());
            }
        }
        assert(edges[0] == rest[0]);
        edges
    }
}

/// The edges on cycles.
proof fn lemma_on_cycle(whole: Diagram, endpoints: Seq<(usize, usize)>, e: int)
    requires
        diagram::resolves(whole, endpoints),
        0 <= e < endpoints.len(),
    ensures
        on_cycle(whole, e) == layers::reaches(
            endpoints,
            endpoints[e].1 as int,
            endpoints[e].0 as int,
        ),
{
    reveal(on_cycle);
    let s = endpoints[e].0 as int;
    let t = endpoints[e].1 as int;
    let from = whole.edges@[e].target@;
    let to = whole.edges@[e].source@;
    assert(diagram::is_node(whole.nodes@, to, endpoints[e].0));
    assert(diagram::is_node(whole.nodes@, from, endpoints[e].1));
    if from == to {
        assert(s == t);
        layers::lemma_reaches_itself(endpoints, s);
    }
    if exists|edges: Seq<int>| chain(whole, edges, from, to) {
        let edges = choose|edges: Seq<int>| chain(whole, edges, from, to);
        lemma_chain_steps(whole, endpoints, edges, t, s);
        assert(layers::reaches(endpoints, t, s));
    }
    if layers::reaches(endpoints, t, s) && s != t {
        let count = choose|count: nat| layers::steps(endpoints, count, t, s);
        let edges = lemma_steps_chain(whole, endpoints, count, t, s);
        assert(chain(whole, edges, from, to));
    }
}

/// The place of a node among the drawn ones.
pub proof fn lemma_node_listed(
    whole: Diagram,
    endpoints: Seq<(usize, usize)>,
    plan: Plan,
    drawn: Layout,
    v: int,
) -> (k: int)
    requires
        layout::fits(whole, endpoints),
        layout::follows(whole, endpoints, plan, drawn),
        0 <= v < whole.nodes@.len(),
    ensures
        0 <= k < drawn.nodes@.len(),
        drawn.nodes@[k].diagram_index == v,
        drawn.nodes@[k].rect == plan.rects[v],
        drawn.nodes@[k].focused == (plan.focus == Some(v as usize)),
        62 <= plan.rects[v].height <= 1_000_000,
        plan.rects[v].width == 216,
{
    layout::lemma_heights_bounded(
        whole,
        endpoints,
        plan,
        (drawn.width as int, drawn.height as int),
    );
    let index = v as usize;
    if whole.kind == DiagramKind::Flow {
        assert(plan.order[v] == v);
    }
    assert(plan.order.contains(index));
    let k = choose|k: int| 0 <= k < plan.order.len() && plan.order[k] == index;
    assert(layout::node_follows(whole, plan, drawn.nodes@[k], plan.order[k]));
    assert(NODE_MIN_HEIGHT <= plan.heights[v] <= HEIGHT_BOUND);
    assert(plan.rects[v].height == plan.heights[v]);
    k
}

/// The place of an edge among the drawn ones.
pub proof fn lemma_edge_listed(
    whole: Diagram,
    endpoints: Seq<(usize, usize)>,
    plan: Plan,
    drawn: Layout,
    e: int,
) -> (k: int)
    requires
        layout::fits(whole, endpoints),
        layout::follows(whole, endpoints, plan, drawn),
        0 <= e < whole.edges@.len(),
    ensures
        0 <= k < drawn.edges@.len(),
        layout::edge_follows(whole, endpoints, plan, drawn.edges@[k], e as usize),
{
    let index = e as usize;
    if whole.kind == DiagramKind::Flow {
        assert(plan.edge_order[e] == e);
    }
    assert(plan.edge_order.contains(index));
    let k = choose|k: int| 0 <= k < plan.edge_order.len() && plan.edge_order[k] == index;
    assert(layout::edge_follows(whole, endpoints, plan, drawn.edges@[k], plan.edge_order[k]));
    k
}

/// Where the path of an edge runs.
proof fn lemma_edge_runs(
    whole: Diagram,
    endpoints: Seq<(usize, usize)>,
    plan: Plan,
    drawn: Layout,
    e: int,
) -> (k: int)
    requires
        diagram::arranged(whole, endpoints, drawn),
        layout::fits(whole, endpoints),
        layout::follows(whole, endpoints, plan, drawn),
        drawn.width <= diagram::MAX_DIMENSION,
        drawn.height <= diagram::MAX_DIMENSION,
        0 <= e < whole.edges@.len(),
    ensures
        0 <= k < drawn.edges@.len(),
        drawn.edges@[k].diagram_index == e,
        drawn.edges@[k].source_index == endpoints[e].0,
        drawn.edges@[k].target_index == endpoints[e].1,
        drawn.edges@[k].dashed == layers::reaches(
            endpoints,
            endpoints[e].1 as int,
            endpoints[e].0 as int,
        ),
        on_border(drawn.edges@[k].path.start, plan.rects[endpoints[e].0 as int]),
        on_border(drawn.edges@[k].path.end, plan.rects[endpoints[e].1 as int]),
        !drawn.edges@[k].dashed ==> runs_forward(
            whole.kind,
            drawn.edges@[k].path,
            plan.rects[endpoints[e].0 as int],
            plan.rects[endpoints[e].1 as int],
        ),
{
    let s = endpoints[e].0 as int;
    let t = endpoints[e].1 as int;
    let from = plan.rects[s];
    let to = plan.rects[t];
    let k = lemma_edge_listed(whole, endpoints, plan, drawn, e);
    let a = lemma_node_listed(whole, endpoints, plan, drawn, s);
    let b = lemma_node_listed(whole, endpoints, plan, drawn, t);
    spacing::law_nodes_stand_apart(whole, endpoints, drawn, a, b);
    spacing::law_nodes_stand_apart(whole, endpoints, drawn, b, a);
    lemma_route_on_borders(whole.kind, from, to, s == t, drawn.edges@[k].dashed);
    if !drawn.edges@[k].dashed {
        let canvas = (drawn.width as int, drawn.height as int);
        if s == t {
            layers::lemma_reaches_itself(endpoints, s);
        }
        if whole.kind == DiagramKind::Architecture {
            layout::law_architecture_reads_left_to_right(whole, endpoints, plan, canvas, e);
        }
        if whole.kind == DiagramKind::Flow {
            layout::law_flow_reads_top_down(whole, endpoints, plan, canvas, e);
        }
    }
    k
}

/// Whether a document shows an edge as a path between the boxes of two nodes.
pub open spec fn joins(
    whole: Diagram,
    document: Seq<char>,
    e: int,
    s: int,
    t: int,
    path: BezierPath,
    from: Rect,
    to: Rect,
) -> bool {
    let source = whole.nodes@[s];
    let target = whole.nodes@[t];
    &&& exists|focused: bool| #[trigger] box_drawn(document, source, focused, from)
    &&& exists|focused: bool| #[trigger] box_drawn(document, target, focused, to)
    &&& path_drawn(document, on_cycle(whole, e), whole.edges@[e], source, target, path)
    &&& on_border(path.start, from)
    &&& on_border(path.end, to)
    &&& !on_cycle(whole, e) ==> runs_forward(whole.kind, path, from, to)
}

/// In the document of a diagram the path of every edge begins on the border of the box
/// that is drawn for the edge's source and ends, in its arrowhead, on the border of the
/// box that is drawn for its target. The path is dashed if and only if the edge lies on
/// a cycle. An edge on no cycle runs from left to right in an architecture diagram, and
/// from top to bottom in a flow diagram.
pub proof fn law_edges_join_the_boxes_of_their_nodes(
    whole: Diagram,
    bytes: Seq<u8>,
    e: int,
    s: int,
    t: int,
) -> (shown: (Seq<char>, BezierPath, Rect, Rect))
    requires
        diagram::renders_as(whole, bytes),
        0 <= e < whole.edges@.len(),
        0 <= s < whole.nodes@.len(),
        0 <= t < whole.nodes@.len(),
        whole.nodes@[s].id@ == whole.edges@[e].source@,
        whole.nodes@[t].id@ == whole.edges@[e].target@,
    ensures
        vstd::utf8::encode_utf8(shown.0) == bytes,
        joins(whole, shown.0, e, s, t, shown.1, shown.2, shown.3),
{
    let (endpoints, drawn) = choose|endpoints: Seq<(usize, usize)>, drawn: Layout|
        {
            &&& #[trigger] diagram::arranged(whole, endpoints, drawn)
            &&& drawn.width <= diagram::MAX_DIMENSION
            &&& drawn.height <= diagram::MAX_DIMENSION
            &&& bytes.len() <= diagram::MAX_SVG_BYTES
            &&& bytes == vstd::utf8::encode_utf8(svg::document_text(whole, drawn))
        };
    let document = svg::document_text(whole, drawn);
    diagram::lemma_fits(whole, endpoints);
    let plan = choose|plan: Plan| layout::follows(whole, endpoints, plan, drawn);
    assert(diagram::is_node(whole.nodes@, whole.edges@[e].source@, endpoints[e].0));
    assert(diagram::is_node(whole.nodes@, whole.edges@[e].target@, endpoints[e].1));
    assert(endpoints[e].0 == s && endpoints[e].1 == t) by {
        assert(whole.nodes@[endpoints[e].0 as int].id@ == whole.nodes@[s].id@);
        assert(whole.nodes@[endpoints[e].1 as int].id@ == whole.nodes@[t].id@);
    }
    let k = lemma_edge_runs(whole, endpoints, plan, drawn, e);
    let a = lemma_node_listed(whole, endpoints, plan, drawn, s);
    let b = lemma_node_listed(whole, endpoints, plan, drawn, t);
    let from = plan.rects[s];
    let to = plan.rects[t];
    let path = drawn.edges@[k].path;
    lemma_on_cycle(whole, endpoints, e);
    lemma_document_shows(whole, drawn);
    assert(box_drawn(document, whole.nodes@[s], drawn.nodes@[a].focused, from));
    assert(box_drawn(document, whole.nodes@[t], drawn.nodes@[b].focused, to));
    assert(path_drawn(
        document,
        on_cycle(whole, e),
        whole.edges@[e],
        whole.nodes@[s],
        whole.nodes@[t],
        path,
    ));
    (document, path, from, to)
}

/// Every node of a diagram has a box in the document; a box in the focus is there in
/// relationship diagrams only.
pub proof fn law_every_node_has_a_box(
    whole: Diagram,
    bytes: Seq<u8>,
    v: int,
) -> (shown: (Seq<char>, bool, Rect))
    requires
        diagram::renders_as(whole, bytes),
        0 <= v < whole.nodes@.len(),
    ensures
        vstd::utf8::encode_utf8(shown.0) == bytes,
        box_drawn(shown.0, whole.nodes@[v], shown.1, shown.2),
        shown.1 ==> whole.kind == DiagramKind::Relationship,
{
    let (endpoints, drawn) = choose|endpoints: Seq<(usize, usize)>, drawn: Layout|
        {
            &&& #[trigger] diagram::arranged(whole, endpoints, drawn)
            &&& drawn.width <= diagram::MAX_DIMENSION
            &&& drawn.height <= diagram::MAX_DIMENSION
            &&& bytes.len() <= diagram::MAX_SVG_BYTES
            &&& bytes == vstd::utf8::encode_utf8(svg::document_text(whole, drawn))
        };
    diagram::lemma_fits(whole, endpoints);
    let plan = choose|plan: Plan| layout::follows(whole, endpoints, plan, drawn);
    let k = lemma_node_listed(whole, endpoints, plan, drawn, v);
    lemma_document_shows(whole, drawn);
    assert(box_drawn(
        svg::document_text(whole, drawn),
        whole.nodes@[v],
        drawn.nodes@[k].focused,
        plan.rects[v],
    ));
    (svg::document_text(whole, drawn), drawn.nodes@[k].focused, plan.rects[v])
}

} // verus!
