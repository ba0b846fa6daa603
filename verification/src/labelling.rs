//! What a reader can read in the document of a diagram: the title, and the labels of
//! nodes and edges line by line.
use crate::diagram;
use crate::drawing;
use crate::drawing::leads;
use crate::evidence::Diagram;
use crate::layout;
use crate::layout::{EdgeLayout, Layout, NodeLayout, Plan, Rect, NODE_LINE_HEIGHT};
use crate::svg;
use crate::text;
use crate::wrap;
use vstd::prelude::*;

verus! {

/// The text of a line, behind what stands before it.
pub open spec fn line_text(before: Seq<char>, x: int, y: int, line: Seq<char>) -> Seq<char> {
    before + "      <tspan x=\""@ + text::signed(x) + "\" y=\""@ + text::signed(y) + "\">"@
        + svg::escaped(line) + "</tspan>\n"@
}

/// Whether a document shows a line of text at a point.
pub open spec fn line_drawn(document: Seq<char>, x: int, y: int, line: Seq<char>) -> bool {
    exists|before: Seq<char>| leads(#[trigger] line_text(before, x, y, line), document)
}

/// Whether lines have the characters of a label, as far as a document can hold them, in
/// their order; between lines, and between words, there may be other white space.
pub open spec fn keep_text(lines: Seq<Seq<char>>, label: Seq<char>) -> bool {
    wrap::without_blanks(wrap::joined(lines)) == wrap::without_blanks(wrap::xml_only(label))
}

proof fn lemma_line_stays(
    first: Seq<char>,
    whole: Seq<char>,
    x: int,
    y: int,
    line: Seq<char>,
)
    requires
        line_drawn(first, x, y, line),
        leads(first, whole),
    ensures
        line_drawn(whole, x, y, line),
{
    let before = choose|before: Seq<char>| leads(#[trigger] line_text(before, x, y, line), first);
    drawing::lemma_leads_through(line_text(before, x, y, line), first, whole);
}

proof fn lemma_tspans(
    shown: Seq<char>,
    lines: Seq<Seq<char>>,
    x: int,
    first_y: int,
    line_height: int,
    i: int,
)
    requires
        0 <= i < lines.len(),
    ensures
        line_drawn(
            svg::with_tspans(shown, lines, x, first_y, line_height),
            x,
            first_y + i * line_height,
            lines[i],
        ),
    decreases lines.len(),
{
    let last = lines.len() - 1;
    let earlier = svg::with_tspans(shown, lines.drop_last(), x, first_y, line_height);
    let now = svg::with_tspans(shown, lines, x, first_y, line_height);
    assert(now == line_text(earlier, x, first_y + last * line_height, lines[last]));
    if i == last {
        drawing::lemma_leads_self(now);
    } else {
        lemma_tspans(shown, lines.drop_last(), x, first_y, line_height, i);
        broadcast use drawing::lemma_leads_on;

        drawing::lemma_leads_self(earlier);
        assert(leads(earlier, now));
        lemma_line_stays(earlier, now, x, first_y + i * line_height, lines[i]);
    }
}

/// Where the first line of the label of a node stands.
spec fn first_line(drawn: NodeLayout) -> int {
    let above = if drawn.lines@.len() == 0 {
        0
    } else {
        drawn.lines@.len() - 1
    };
    layout::mid_y(drawn.rect) - (above * NODE_LINE_HEIGHT) / 2 + 5
}

proof fn lemma_node_line(
    shown: Seq<char>,
    whole: Diagram,
    drawn: NodeLayout,
    sequence: int,
    i: int,
)
    requires
        0 <= i < drawn.lines@.len(),
    ensures
        line_drawn(
            svg::with_node(shown, whole, drawn, sequence),
            layout::mid_x(drawn.rect),
            first_line(drawn) + i * NODE_LINE_HEIGHT,
            drawn.lines@[i]@,
        ),
{
    reveal(svg::with_node);
    let lines = wrap::string_views(drawn.lines@);
    let node = whole.nodes@[drawn.diagram_index as int];
    let rect = drawn.rect;
    let class = if drawn.focused {
        "node focus-node"@
    } else {
        "node"@
    };
    let fill = if drawn.focused {
        "#16243a"@
    } else {
        "#111a2b"@
    };
    let stroke = if drawn.focused {
        "#fbbf24"@
    } else {
        "#52647f"@
    };
    let bound = svg::with_ids(
        svg::with_ids(
            shown + "  <g id=\"node-"@ + text::signed(sequence) + "\" class=\""@ + class
                + "\" data-claim-ids=\""@,
            layout::claim_values(node.claim_ids@),
        ) + "\" data-evidence-ids=\""@,
        layout::evidence_values(node.evidence_ids@),
    ) + "\">\n    <title>"@ + svg::escaped(node.label@) + "</title>\n"@;
    let boxed = bound + "    <rect x=\""@ + text::signed(rect.x as int) + "\" y=\""@
        + text::signed(rect.y as int) + "\" width=\""@ + text::signed(rect.width as int)
        + "\" height=\""@ + text::signed(rect.height as int) + "\" rx=\"12\" fill=\""@ + fill
        + "\" stroke=\""@ + stroke + "\" stroke-width=\"2\"/>\n"@;
    let start = boxed + "    <text x=\""@ + text::signed(layout::mid_x(rect)) + "\" y=\""@
        + text::signed(first_line(drawn))
        + "\" text-anchor=\"middle\" fill=\"#e2e8f0\" font-family=\"ui-monospace, monospace\" font-size=\""@
        + text::signed(svg::NODE_FONT_SIZE as int) + "\" font-weight=\"650\">\n"@;
    let x = layout::mid_x(rect);
    let y = first_line(drawn);
    let told = svg::with_tspans(start, lines, x, y, NODE_LINE_HEIGHT as int);
    lemma_tspans(start, lines, x, y, NODE_LINE_HEIGHT as int, i);
    broadcast use drawing::lemma_leads_on;

    drawing::lemma_leads_self(told);
    assert(svg::with_node(shown, whole, drawn, sequence) == told + "    </text>\n  </g>\n"@);
    lemma_line_stays(
        told,
        svg::with_node(shown, whole, drawn, sequence),
        x,
        y + i * NODE_LINE_HEIGHT,
        lines[i],
    );
}

proof fn lemma_nodes_line(
    shown: Seq<char>,
    whole: Diagram,
    nodes: Seq<NodeLayout>,
    k: int,
    i: int,
)
    requires
        0 <= k < nodes.len(),
        0 <= i < nodes[k].lines@.len(),
    ensures
        line_drawn(
            svg::with_nodes(shown, whole, nodes),
            layout::mid_x(nodes[k].rect),
            first_line(nodes[k]) + i * NODE_LINE_HEIGHT,
            nodes[k].lines@[i]@,
        ),
    decreases nodes.len(),
{
    let last = nodes.len() - 1;
    let earlier = svg::with_nodes(shown, whole, nodes.drop_last());
    let now = svg::with_nodes(shown, whole, nodes);
    drawing::lemma_node_text(earlier, whole, nodes[last], last);
    if k == last {
        lemma_node_line(earlier, whole, nodes[last], last, i);
    } else {
        lemma_nodes_line(shown, whole, nodes.drop_last(), k, i);
        lemma_line_stays(
            earlier,
            now,
            layout::mid_x(nodes[k].rect),
            first_line(nodes[k]) + i * NODE_LINE_HEIGHT,
            nodes[k].lines@[i]@,
        );
    }
}

/// Whether a document shows an edge's label: its lines one below the other.
pub open spec fn label_drawn(document: Seq<char>, x: int, ys: Seq<int>, lines: Seq<Seq<char>>) -> bool {
    &&& lines.len() == ys.len() > 0
    &&& forall|i: int|
        0 <= i < lines.len() ==> line_drawn(document, x, #[trigger] ys[i], lines[i])
    &&& forall|i: int, j: int| 0 <= i < j < ys.len() ==> #[trigger] ys[i] < #[trigger] ys[j]
}

/// Where the first line of the label of an edge stands.
spec fn first_label_line(drawn: EdgeLayout) -> int {
    let count = drawn.label_lines@.len() as int;
    let above = if count == 0 {
        0
    } else {
        count - 1
    };
    drawn.label_position.y - (above * layout::EDGE_LINE_HEIGHT) / 2 + 4
}

proof fn lemma_edge_line(
    shown: Seq<char>,
    whole: Diagram,
    drawn: EdgeLayout,
    sequence: int,
    i: int,
)
    requires
        0 <= i < drawn.label_lines@.len(),
        svg::visible(whole.edges@[drawn.diagram_index as int].label@),
    ensures
        line_drawn(
            svg::with_edge(shown, whole, drawn, sequence),
            drawn.label_position.x as int,
            first_label_line(drawn) + i * layout::EDGE_LINE_HEIGHT,
            drawn.label_lines@[i]@,
        ),
{
    let path = svg::with_edge_path(svg::with_edge_head(shown, whole, drawn, sequence), drawn);
    let lines = wrap::string_views(drawn.label_lines@);
    let x = drawn.label_position.x as int;
    let y = first_label_line(drawn);
    let label = svg::with_edge_label(path, drawn);
    assert(line_drawn(label, x, y + i * layout::EDGE_LINE_HEIGHT, lines[i])) by {
        reveal(svg::with_edge_label);
        let box_width = svg::widest(lines, lines.len()) * svg::EDGE_LABEL_UNIT_WIDTH + 16;
        let box_height = lines.len() as int * layout::EDGE_LINE_HEIGHT + 10;
        let start = path + "    <rect x=\""@ + text::signed(
            drawn.label_position.x - box_width / 2,
        ) + "\" y=\""@ + text::signed(drawn.label_position.y - box_height / 2) + "\" width=\""@
            + text::signed(box_width) + "\" height=\""@ + text::signed(box_height)
            + "\" rx=\"5\" fill=\"#111a2b\" stroke=\"#334155\" stroke-width=\"1\"/>\n"@
            + "    <text x=\""@ + text::signed(x) + "\" y=\""@ + text::signed(y)
            + "\" text-anchor=\"middle\" fill=\"#bae6fd\" font-family=\"ui-monospace, monospace\" font-size=\""@
            + text::signed(svg::EDGE_FONT_SIZE as int) + "\" font-weight=\"600\">\n"@;
        let told = svg::with_tspans(start, lines, x, y, layout::EDGE_LINE_HEIGHT as int);
        lemma_tspans(start, lines, x, y, layout::EDGE_LINE_HEIGHT as int, i);
        broadcast use drawing::lemma_leads_on;

        drawing::lemma_leads_self(told);
        assert(label == told + "    </text>\n"@);
        lemma_line_stays(told, label, x, y + i * layout::EDGE_LINE_HEIGHT, lines[i]);
    }
    reveal(svg::with_edge);
    broadcast use drawing::lemma_leads_on;

    drawing::lemma_leads_self(label);
    lemma_line_stays(
        label,
        svg::with_edge(shown, whole, drawn, sequence),
        x,
        y + i * layout::EDGE_LINE_HEIGHT,
        lines[i],
    );
}

proof fn lemma_edges_line(
    shown: Seq<char>,
    whole: Diagram,
    edges: Seq<EdgeLayout>,
    k: int,
    i: int,
)
    requires
        0 <= k < edges.len(),
        0 <= i < edges[k].label_lines@.len(),
        svg::visible(whole.edges@[edges[k].diagram_index as int].label@),
    ensures
        line_drawn(
            svg::with_edges(shown, whole, edges),
            edges[k].label_position.x as int,
            first_label_line(edges[k]) + i * layout::EDGE_LINE_HEIGHT,
            edges[k].label_lines@[i]@,
        ),
    decreases edges.len(),
{
    let last = edges.len() - 1;
    let earlier = svg::with_edges(shown, whole, edges.drop_last());
    let now = svg::with_edges(shown, whole, edges);
    drawing::lemma_edge_text(earlier, whole, edges[last], last);
    if k == last {
        lemma_edge_line(earlier, whole, edges[last], last, i);
    } else {
        lemma_edges_line(shown, whole, edges.drop_last(), k, i);
        lemma_line_stays(
            earlier,
            now,
            edges[k].label_position.x as int,
            first_label_line(edges[k]) + i * layout::EDGE_LINE_HEIGHT,
            edges[k].label_lines@[i]@,
        );
    }
}

proof fn lemma_edges_lead(shown: Seq<char>, whole: Diagram, edges: Seq<EdgeLayout>)
    ensures
        leads(shown, svg::with_edges(shown, whole, edges)),
    decreases edges.len(),
{
    if edges.len() == 0 {
        drawing::lemma_leads_self(shown);
    } else {
        let earlier = svg::with_edges(shown, whole, edges.drop_last());
        let last = edges.len() - 1;
        lemma_edges_lead(shown, whole, edges.drop_last());
        drawing::lemma_edge_text(earlier, whole, edges[last], last);
        drawing::lemma_leads_through(shown, earlier, svg::with_edges(shown, whole, edges));
    }
}

/// The parts of a document that stand before the rest of it.
proof fn lemma_document_parts(whole: Diagram, drawn: Layout)
    ensures
        ({
            let head = svg::with_header(
                svg::opening(whole, drawn.width as int, drawn.height as int),
                whole,
                drawn.width as int,
            );
            let lines = svg::with_edges(head, whole, drawn.edges@);
            let boxes = svg::with_nodes(lines, whole, drawn.nodes@);
            let document = svg::document_text(whole, drawn);
            leads(head, document) && leads(lines, document) && leads(boxes, document)
        }),
{
    let head = svg::with_header(
        svg::opening(whole, drawn.width as int, drawn.height as int),
        whole,
        drawn.width as int,
    );
    let lines = svg::with_edges(head, whole, drawn.edges@);
    let boxes = svg::with_nodes(lines, whole, drawn.nodes@);
    let document = svg::document_text(whole, drawn);
    lemma_edges_lead(head, whole, drawn.edges@);
    drawing::lemma_nodes_text(lines, whole, drawn.nodes@);
    drawing::lemma_leads_self(boxes);
    drawing::lemma_leads_on(boxes, boxes, "</svg>\n"@);
    drawing::lemma_leads_through(lines, boxes, document);
    drawing::lemma_leads_through(head, lines, document);
}

/// The layout that a document was made of.
proof fn lemma_layout(whole: Diagram, bytes: Seq<u8>) -> (made: (
    Seq<(usize, usize)>,
    Layout,
    Plan,
))
    requires
        diagram::renders_as(whole, bytes),
    ensures
        diagram::arranged(whole, made.0, made.1),
        layout::fits(whole, made.0),
        layout::follows(whole, made.0, made.2, made.1),
        bytes == vstd::utf8::encode_utf8(svg::document_text(whole, made.1)),
{
    let (endpoints, drawn) = choose|endpoints: Seq<(usize, usize)>, drawn: Layout|
        {
            &&& #[trigger] diagram::arranged(whole, endpoints, drawn)
            &&& drawn.width <= diagram::MAX_DIMENSION
            &&& drawn.height <= diagram::MAX_DIMENSION
            &&& bytes.len() <= diagram::MAX_SVG_BYTES
            &&& bytes == vstd::utf8::encode_utf8(svg::document_text(whole, drawn))
        };
    diagram::lemma_fits(whole, endpoints);
    let plan = choose|plan: Plan| layout::follows(whole, endpoints, plan, drawn);
    (endpoints, drawn, plan)
}

/// Whether the lines of a label stand in a box: in its middle, one below the other, and
/// none wider than a box can hold.
pub open spec fn stands_in(document: Seq<char>, rect: Rect, ys: Seq<int>, lines: Seq<Seq<char>>) -> bool {
    &&& lines.len() == ys.len() > 0
    &&& forall|i: int|
        0 <= i < lines.len() ==> line_drawn(
            document,
            rect.x + rect.width / 2,
            #[trigger] ys[i],
            lines[i],
        )
    &&& forall|i: int| 0 <= i < lines.len() ==> wrap::units(#[trigger] lines[i]) <= 22
    &&& forall|i: int|
        0 <= i < ys.len() ==> rect.y < #[trigger] ys[i] < rect.y + rect.height
    &&& forall|i: int, j: int| 0 <= i < j < ys.len() ==> #[trigger] ys[i] < #[trigger] ys[j]
}

/// The label of every node stands in its box, whole and line by line.
pub proof fn law_label_stands_in_the_box(whole: Diagram, bytes: Seq<u8>, v: int) -> (shown: (
    Seq<char>,
    bool,
    Rect,
    Seq<int>,
    Seq<Seq<char>>,
))
    requires
        diagram::renders_as(whole, bytes),
        0 <= v < whole.nodes@.len(),
    ensures
        vstd::utf8::encode_utf8(shown.0) == bytes,
        drawing::box_drawn(shown.0, whole.nodes@[v], shown.1, shown.2),
        keep_text(shown.4, whole.nodes@[v].label@),
        stands_in(shown.0, shown.2, shown.3, shown.4),
{
    let (endpoints, drawn, plan) = lemma_layout(whole, bytes);
    let document = svg::document_text(whole, drawn);
    let k = drawing::lemma_node_listed(whole, endpoints, plan, drawn, v);
    let node = drawn.nodes@[k];
    let rect = plan.rects[v];
    let label = whole.nodes@[v].label@;
    assert(layout::node_follows(whole, plan, node, plan.order[k]));
    let lines = wrap::string_views(node.lines@);
    assert(lines == wrap::wrapped(label, 22));
    assert(plan.heights[v] == layout::height_of_lines(lines.len() as int));
    let ys = Seq::new(lines.len(), |i: int| first_line(node) + i * NODE_LINE_HEIGHT);
    drawing::lemma_document_shows(whole, drawn);
    lemma_document_parts(whole, drawn);
    wrap::law_wrapping_keeps_text(label, 22);
    wrap::law_wrapped_lines_fit(label, 22);
    let head = svg::with_header(
        svg::opening(whole, drawn.width as int, drawn.height as int),
        whole,
        drawn.width as int,
    );
    let edges = svg::with_edges(head, whole, drawn.edges@);
    assert forall|i: int| 0 <= i < lines.len() implies line_drawn(
        document,
        rect.x + rect.width / 2,
        #[trigger] ys[i],
        lines[i],
    ) by {
        lemma_nodes_line(edges, whole, drawn.nodes@, k, i);
        lemma_line_stays(
            svg::with_nodes(edges, whole, drawn.nodes@),
            document,
            layout::mid_x(rect),
            ys[i],
            lines[i],
        );
    }
    assert(drawing::box_drawn(document, whole.nodes@[v], node.focused, rect));
    (document, node.focused, rect, ys, lines)
}

/// The label of every edge that has a visible one is shown, whole and line by line.
pub proof fn law_edge_label_is_shown(whole: Diagram, bytes: Seq<u8>, e: int, i: int) -> (shown: (
    Seq<char>,
    int,
    Seq<int>,
    Seq<Seq<char>>,
))
    requires
        diagram::renders_as(whole, bytes),
        0 <= e < whole.edges@.len(),
        0 <= i < whole.edges@[e].label@.len(),
        wrap::is_xml(whole.edges@[e].label@[i]),
        !text::is_blank(whole.edges@[e].label@[i]),
    ensures
        vstd::utf8::encode_utf8(shown.0) == bytes,
        keep_text(shown.3, whole.edges@[e].label@),
        label_drawn(shown.0, shown.1, shown.2, shown.3),
{
    let (endpoints, drawn, plan) = lemma_layout(whole, bytes);
    let document = svg::document_text(whole, drawn);
    let k = drawing::lemma_edge_listed(whole, endpoints, plan, drawn, e);
    let edge = drawn.edges@[k];
    let label = whole.edges@[e].label@;
    assert(svg::visible(label));
    let lines = wrap::string_views(edge.label_lines@);
    assert(lines == wrap::wrapped(label, 22));
    let x = edge.label_position.x as int;
    let ys = Seq::new(lines.len(), |j: int| first_label_line(edge) + j * layout::EDGE_LINE_HEIGHT);
    lemma_document_parts(whole, drawn);
    wrap::law_wrapping_keeps_text(label, 22);
    let head = svg::with_header(
        svg::opening(whole, drawn.width as int, drawn.height as int),
        whole,
        drawn.width as int,
    );
    assert forall|j: int| 0 <= j < lines.len() implies line_drawn(
        document,
        x,
        #[trigger] ys[j],
        lines[j],
    ) by {
        lemma_edges_line(head, whole, drawn.edges@, k, j);
        lemma_line_stays(
            svg::with_edges(head, whole, drawn.edges@),
            document,
            x,
            ys[j],
            lines[j],
        );
    }
    (document, x, ys, lines)
}

/// The text of the title above the body, behind what stands before it.
pub open spec fn title_text(before: Seq<char>, title: Seq<char>) -> Seq<char> {
    before + "\" font-weight=\"700\">"@ + svg::escaped(title) + "</text>\n"@
}

/// The title of a diagram is shown.
pub proof fn law_title_is_shown(whole: Diagram, bytes: Seq<u8>) -> (shown: (Seq<char>, Seq<char>))
    requires
        diagram::renders_as(whole, bytes),
    ensures
        vstd::utf8::encode_utf8(shown.0) == bytes,
        leads(title_text(shown.1, whole.title@), shown.0),
{
    let (endpoints, drawn, plan) = lemma_layout(whole, bytes);
    let document = svg::document_text(whole, drawn);
    let start = svg::opening(whole, drawn.width as int, drawn.height as int);
    let head = svg::with_header(start, whole, drawn.width as int);
    lemma_document_parts(whole, drawn);
    let front = "\" fill=\"#f8fafc\" font-family=\"ui-monospace, monospace\" font-size=\"18"@;
    let back = "\" font-weight=\"700\">"@;
    let both = "\" fill=\"#f8fafc\" font-family=\"ui-monospace, monospace\" font-size=\"18\" font-weight=\"700\">"@;
    assert(both =~= front + back) by {
        reveal_strlit("\" fill=\"#f8fafc\" font-family=\"ui-monospace, monospace\" font-size=\"18");
        reveal_strlit("\" font-weight=\"700\">");
        reveal_strlit(
            "\" fill=\"#f8fafc\" font-family=\"ui-monospace, monospace\" font-size=\"18\" font-weight=\"700\">",
        );
    }
    let point = start + "  <text x=\""@ + text::signed(layout::OUTER_MARGIN as int) + "\" y=\""@
        + text::signed(layout::HEADER_TITLE_Y as int);
    let before = point + front;
    let told = title_text(before, whole.title@);
    assert(told == point + both + svg::escaped(whole.title@) + "</text>\n"@) by {
        assert(before + back =~= point + both);
    }
    assert(leads(told, head)) by {
        reveal(svg::with_header);
        broadcast use drawing::lemma_leads_on;

        drawing::lemma_leads_self(told);
    }
    drawing::lemma_leads_through(told, head, document);
    (document, before)
}

} // verus!
