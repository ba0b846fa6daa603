//! The nodes of a diagram stand apart from each other and from the edges of the canvas.
use crate::canonical;
use crate::diagram;
use crate::evidence::{Diagram, DiagramEdge, DiagramKind};
use crate::layers;
use crate::layout;
use crate::layout::{
    Layout, Plan, Rect, BODY_TOP, FLOW_LAYER_GAP, NODE_GAP, NODE_MIN_HEIGHT, NODE_WIDTH,
    OUTER_MARGIN,
};
use vstd::prelude::*;

verus! {

/// Two rectangles with at least the gap between nodes in between, from left to right
/// or from top to bottom.
pub open spec fn apart(a: Rect, b: Rect) -> bool {
    ||| a.x + a.width + NODE_GAP <= b.x
    ||| b.x + b.width + NODE_GAP <= a.x
    ||| a.y + a.height + NODE_GAP <= b.y
    ||| b.y + b.height + NODE_GAP <= a.y
}

/// A rectangle below the header and within the margins of a canvas.
pub open spec fn within_margins(rect: Rect, canvas: (int, int)) -> bool {
    &&& OUTER_MARGIN <= rect.x
    &&& rect.x + rect.width <= canvas.0 - OUTER_MARGIN
    &&& BODY_TOP <= rect.y
    &&& rect.y + rect.height <= canvas.1 - OUTER_MARGIN
}

/// Nodes that are arranged, each listed once.
spec fn listed(order: Seq<usize>, groups: Seq<usize>, heights: Seq<i32>) -> bool {
    &&& layout::arranged(order, groups, heights)
    &&& order.no_duplicates()
    &&& forall|v: usize| v < order.len() ==> #[trigger] order.contains(v)
}

/// The rank of a node.
proof fn lemma_ranked(order: Seq<usize>, groups: Seq<usize>, heights: Seq<i32>, v: int)
    requires
        listed(order, groups, heights),
        0 <= v < order.len(),
    ensures
        layout::rank_of(order, v) < order.len(),
        order[layout::rank_of(order, v) as int] == v,
{
    layout::lemma_rank_of(order, v);
    assert(order.contains(v as usize));
    let i = choose|i: int| 0 <= i < order.len() && order[i] == v as usize;
    if layout::rank_of(order, v) == order.len() {
        assert(order[i] != v);
    }
}

/// A node in the stack of its group ends within the stack, which counts one member
/// more behind it.
proof fn lemma_in_stack(order: Seq<usize>, groups: Seq<usize>, heights: Seq<i32>, v: int)
    requires
        listed(order, groups, heights),
        0 <= v < order.len(),
    ensures
        ({
            let group = groups[v] as int;
            let rank = layout::rank_of(order, v);
            &&& 0 <= layout::stacked(order, groups, heights, group, rank)
            &&& layout::stacked(order, groups, heights, group, rank) + heights[v]
                <= layout::stack_extent(order, groups, heights, group)
            &&& layout::members(order, groups, group, rank) + 1 <= layout::members(
                order,
                groups,
                group,
                order.len(),
            )
            &&& layout::members(order, groups, group, order.len()) <= order.len()
        }),
{
    let group = groups[v] as int;
    let rank = layout::rank_of(order, v);
    lemma_ranked(order, groups, heights, v);
    layout::lemma_stacked_bound(order, groups, heights, group, rank);
    layout::lemma_stacked_bound(order, groups, heights, group, order.len());
    layout::lemma_stacked_monotonic(order, groups, heights, group, rank + 1, order.len());
}

/// Of two nodes of a group, one stands in the stack behind the other.
proof fn lemma_stack_apart(
    order: Seq<usize>,
    groups: Seq<usize>,
    heights: Seq<i32>,
    v: int,
    w: int,
)
    requires
        listed(order, groups, heights),
        0 <= v < order.len(),
        0 <= w < order.len(),
        v != w,
        groups[v] == groups[w],
    ensures
        ({
            let group = groups[v] as int;
            let (a, b) = (layout::rank_of(order, v), layout::rank_of(order, w));
            let (y, z) = (
                layout::stacked(order, groups, heights, group, a),
                layout::stacked(order, groups, heights, group, b),
            );
            let (m, n) = (
                layout::members(order, groups, group, a),
                layout::members(order, groups, group, b),
            );
            ||| y + heights[v] + NODE_GAP <= z && m + 1 <= n
            ||| z + heights[w] + NODE_GAP <= y && n + 1 <= m
        }),
{
    let group = groups[v] as int;
    let (a, b) = (layout::rank_of(order, v), layout::rank_of(order, w));
    lemma_ranked(order, groups, heights, v);
    lemma_ranked(order, groups, heights, w);
    if a < b {
        layout::lemma_stacked_monotonic(order, groups, heights, group, a + 1, b);
    } else {
        layout::lemma_stacked_monotonic(order, groups, heights, group, b + 1, a);
    }
}

/// A node in its row: below the top of the row and above the next one.
proof fn lemma_in_row(
    order: Seq<usize>,
    groups: Seq<usize>,
    heights: Seq<i32>,
    start: int,
    gap: int,
    v: int,
    rows: nat,
)
    requires
        listed(order, groups, heights),
        0 <= v < order.len(),
        0 <= gap <= 100,
        groups[v] < rows,
    ensures
        ({
            let row = groups[v] as int;
            let tall = layout::tallest(groups, heights, row, heights.len());
            let y = layout::row_top(groups, heights, start, gap, row as nat) + (tall - heights[v])
                / 2;
            &&& start <= y
            &&& y + heights[v] <= layout::row_top(groups, heights, start, gap, rows) - gap
        }),
{
    let row = groups[v] as nat;
    layout::lemma_tallest_bound(groups, heights, row as int, heights.len());
    layout::lemma_row_top_bound(groups, heights, start, gap, row);
    assert(heights[v] <= layout::tallest(groups, heights, row as int, heights.len()));
    layout::lemma_rows_descend(groups, heights, start, gap, row, rows);
}

/// Nodes of different rows stand apart.
proof fn lemma_rows_apart(
    order: Seq<usize>,
    groups: Seq<usize>,
    heights: Seq<i32>,
    start: int,
    gap: int,
    v: int,
    w: int,
)
    requires
        listed(order, groups, heights),
        0 <= v < order.len(),
        0 <= w < order.len(),
        0 <= gap <= 100,
        groups[v] < groups[w],
    ensures
        ({
            let (upper, lower) = (groups[v] as int, groups[w] as int);
            let tall = layout::tallest(groups, heights, upper, heights.len());
            let tall_below = layout::tallest(groups, heights, lower, heights.len());
            layout::row_top(groups, heights, start, gap, upper as nat) + (tall - heights[v]) / 2
                + heights[v] + gap <= layout::row_top(groups, heights, start, gap, lower as nat) + (
            tall_below - heights[w]) / 2
        }),
{
    let (upper, lower) = (groups[v] as nat, groups[w] as nat);
    layout::lemma_tallest_bound(groups, heights, upper as int, heights.len());
    layout::lemma_tallest_bound(groups, heights, lower as int, heights.len());
    assert(heights[v] <= layout::tallest(groups, heights, upper as int, heights.len()));
    assert(heights[w] <= layout::tallest(groups, heights, lower as int, heights.len()));
    layout::lemma_rows_descend(groups, heights, start, gap, upper, lower);
}

/// The nodes of columns.
proof fn lemma_columns_spaced(
    order: Seq<usize>,
    groups: Seq<usize>,
    heights: Seq<i32>,
    title: int,
    rects: Seq<Rect>,
    v: int,
    w: int,
)
    requires
        listed(order, groups, heights),
        layout::rects_at(
            rects,
            heights,
            layout::column_places(order, groups, heights, title),
        ),
        0 <= v < order.len(),
        0 <= w < order.len(),
    ensures
        within_margins(rects[v], layout::column_canvas(order, groups, heights, title)),
        v != w ==> apart(rects[v], rects[w]),
{
    let places = layout::column_places(order, groups, heights, title);
    let columns = layout::greatest(groups, groups.len()) + 1;
    assert(rects[v].x == places(v).0 && rects[w].x == places(w).0);
    canonical::lemma_greatest(groups, groups.len());
    layout::lemma_greatest_stack(order, groups, heights, columns as nat);
    lemma_in_stack(order, groups, heights, v);
    lemma_in_stack(order, groups, heights, w);
    let (i, j) = (groups[v] as int, groups[w] as int);
    assert(i < columns && j < columns);
    assert(layout::stack_extent(order, groups, heights, i) <= layout::greatest_stack(
        order,
        groups,
        heights,
        columns as nat,
    ));
    if v != w && i == j {
        lemma_stack_apart(order, groups, heights, v, w);
    }
}

/// The nodes of rows.
proof fn lemma_rows_spaced(
    order: Seq<usize>,
    groups: Seq<usize>,
    heights: Seq<i32>,
    title: int,
    rects: Seq<Rect>,
    v: int,
    w: int,
)
    requires
        listed(order, groups, heights),
        layout::rects_at(rects, heights, layout::row_places(order, groups, heights, title)),
        0 <= v < order.len(),
        0 <= w < order.len(),
    ensures
        within_margins(rects[v], layout::row_canvas(order, groups, heights, title)),
        v != w ==> apart(rects[v], rects[w]),
{
    let places = layout::row_places(order, groups, heights, title);
    let rows = (layout::greatest(groups, groups.len()) + 1) as nat;
    let (start, gap) = (BODY_TOP as int, FLOW_LAYER_GAP as int);
    assert(rects[v].x == places(v).0 && rects[w].x == places(w).0);
    canonical::lemma_greatest(groups, groups.len());
    layout::lemma_widest_row(order, groups, heights, rows);
    lemma_in_stack(order, groups, heights, v);
    lemma_in_stack(order, groups, heights, w);
    let (i, j) = (groups[v] as int, groups[w] as int);
    assert(i < rows && j < rows);
    let count = layout::members(order, groups, i, order.len());
    assert(layout::row_extent(count as int, NODE_WIDTH as int, NODE_GAP as int)
        <= layout::widest_row(order, groups, rows));
    lemma_in_row(order, groups, heights, start, gap, v, rows);
    if i < j {
        lemma_rows_apart(order, groups, heights, start, gap, v, w);
    } else if j < i {
        lemma_rows_apart(order, groups, heights, start, gap, w, v);
    } else if v != w {
        lemma_stack_apart(order, groups, heights, v, w);
    }
}

/// A node around a centre that is joined with it, or is the centre.
proof fn lemma_joined_within(
    order: Seq<usize>,
    groups: Seq<usize>,
    heights: Seq<i32>,
    center: int,
    title: int,
    rects: Seq<Rect>,
    v: int,
)
    requires
        listed(order, groups, heights),
        layout::rects_at(
            rects,
            heights,
            layout::relation_places(order, groups, heights, center, title),
        ),
        0 <= center < order.len(),
        0 <= v < order.len(),
        groups[v] < 3,
        groups[v] == 0 ==> v == center,
    ensures
        rects[v].y >= BODY_TOP,
        rects[v].y + rects[v].height <= BODY_TOP + layout::relation_height(
            order,
            groups,
            heights,
            center,
        ),
        within_margins(
            rects[v],
            layout::relation_canvas(order, groups, heights, center, title),
        ),
{
    let places = layout::relation_places(order, groups, heights, center, title);
    assert(rects[v].x == places(v).0);
    assert(heights[v] >= NODE_MIN_HEIGHT);
    lemma_in_stack(order, groups, heights, v);
    layout::lemma_stacked_bound(order, groups, heights, 3, order.len());
    let rest = layout::members(order, groups, 3, order.len()) as int;
    let main_bottom = BODY_TOP + layout::relation_height(order, groups, heights, center);
    let rows = layout::rest_rows(order, groups);
    layout::lemma_row_top_bound(
        rows,
        heights,
        main_bottom + FLOW_LAYER_GAP,
        NODE_GAP as int,
        ((rest + 3) / 4) as nat,
    );
}

/// A node that is not joined with the centre: below those that are.
proof fn lemma_rest_within(
    order: Seq<usize>,
    groups: Seq<usize>,
    heights: Seq<i32>,
    center: int,
    title: int,
    rects: Seq<Rect>,
    v: int,
)
    requires
        listed(order, groups, heights),
        layout::rects_at(
            rects,
            heights,
            layout::relation_places(order, groups, heights, center, title),
        ),
        0 <= center < order.len(),
        0 <= v < order.len(),
        groups[v] == 3,
    ensures
        rects[v].y >= BODY_TOP + layout::relation_height(order, groups, heights, center)
            + FLOW_LAYER_GAP,
        heights[center] <= layout::relation_height(order, groups, heights, center),
        within_margins(
            rects[v],
            layout::relation_canvas(order, groups, heights, center, title),
        ),
        listed(order, layout::rest_rows(order, groups), heights),
{
    let places = layout::relation_places(order, groups, heights, center, title);
    let rows = layout::rest_rows(order, groups);
    assert(rects[v].x == places(v).0);
    assert(heights[center] >= NODE_MIN_HEIGHT);
    lemma_in_stack(order, groups, heights, v);
    lemma_ranked(order, groups, heights, v);
    let rank = layout::rank_of(order, v);
    let rest = layout::members(order, groups, 3, order.len()) as int;
    let earlier = layout::members(order, groups, 3, rank) as int;
    assert(rows[v] == earlier / 4);
    let row = rows[v] as int;
    assert(row < order.len());
    let count = ((rest + 3) / 4) as nat;
    assert(row < count);
    layout::lemma_rest_rows(order, groups, row, order.len());
    lemma_in_stack(order, rows, heights, v);
    let start = BODY_TOP + layout::relation_height(order, groups, heights, center) + FLOW_LAYER_GAP;
    lemma_in_row(order, rows, heights, start, NODE_GAP as int, v, count);
}

/// The nodes around a centre.
proof fn lemma_relations_spaced(
    order: Seq<usize>,
    endpoints: Seq<(usize, usize)>,
    heights: Seq<i32>,
    center: int,
    title: int,
    rects: Seq<Rect>,
    v: int,
    w: int,
)
    requires
        listed(
            order,
            layout::relation_groups(endpoints, center, order.len()),
            heights,
        ),
        layout::rects_at(
            rects,
            heights,
            layout::relation_places(
                order,
                layout::relation_groups(endpoints, center, order.len()),
                heights,
                center,
                title,
            ),
        ),
        0 <= center < order.len(),
        0 <= v < order.len(),
        0 <= w < order.len(),
    ensures
        within_margins(
            rects[v],
            layout::relation_canvas(
                order,
                layout::relation_groups(endpoints, center, order.len()),
                heights,
                center,
                title,
            ),
        ),
        v != w ==> apart(rects[v], rects[w]),
{
    let groups = layout::relation_groups(endpoints, center, order.len());
    let places = layout::relation_places(order, groups, heights, center, title);
    assert(rects[v].x == places(v).0 && rects[w].x == places(w).0);
    let (i, j) = (groups[v] as int, groups[w] as int);
    if i < 3 {
        lemma_joined_within(order, groups, heights, center, title, rects, v);
    } else {
        lemma_rest_within(order, groups, heights, center, title, rects, v);
    }
    if j < 3 {
        lemma_joined_within(order, groups, heights, center, title, rects, w);
    } else {
        lemma_rest_within(order, groups, heights, center, title, rects, w);
    }
    if v != w && i == j && i < 3 {
        lemma_stack_apart(order, groups, heights, v, w);
    } else if v != w && i == 3 && j == 3 {
        let rows = layout::rest_rows(order, groups);
        let gap = NODE_GAP as int;
        let start = BODY_TOP + layout::relation_height(order, groups, heights, center)
            + FLOW_LAYER_GAP;
        if rows[v] < rows[w] {
            lemma_rows_apart(order, rows, heights, start, gap, v, w);
        } else if rows[w] < rows[v] {
            lemma_rows_apart(order, rows, heights, start, gap, w, v);
        } else {
            lemma_stack_apart(order, rows, heights, v, w);
        }
    }
}

/// The order in which the nodes of a plan are drawn lists every node once.
proof fn lemma_plan_listed(
    diagram: Diagram,
    endpoints: Seq<(usize, usize)>,
    plan: Plan,
    canvas: (int, int),
    groups: Seq<usize>,
)
    requires
        layout::fits(diagram, endpoints),
        layout::plans(diagram, endpoints, plan, canvas),
        groups.len() == diagram.nodes@.len(),
    ensures
        plan.order.len() == diagram.nodes@.len(),
        listed(plan.order, groups, plan.heights),
{
    layout::lemma_heights_bounded(diagram, endpoints, plan, canvas);
    layout::lemma_listing_distinct(layout::node_keys(diagram.nodes@), plan.canonical);
    if diagram.kind == DiagramKind::Flow {
        assert forall|v: usize| v < plan.order.len() implies #[trigger] plan.order.contains(v) by {
            assert(plan.order[v as int] == v);
        }
    }
}

/// The nodes of a plan.
proof fn lemma_plan_spaced(
    diagram: Diagram,
    endpoints: Seq<(usize, usize)>,
    plan: Plan,
    canvas: (int, int),
    v: int,
    w: int,
)
    requires
        layout::fits(diagram, endpoints),
        layout::plans(diagram, endpoints, plan, canvas),
        0 <= v < diagram.nodes@.len(),
        0 <= w < diagram.nodes@.len(),
    ensures
        within_margins(plan.rects[v], canvas),
        v != w ==> apart(plan.rects[v], plan.rects[w]),
{
    let title = layout::title_width(diagram);
    match diagram.kind {
        DiagramKind::Architecture => {
            lemma_plan_listed(diagram, endpoints, plan, canvas, plan.layers);
            lemma_columns_spaced(plan.order, plan.layers, plan.heights, title, plan.rects, v, w);
        },
        DiagramKind::Flow => {
            lemma_plan_listed(diagram, endpoints, plan, canvas, plan.layers);
            lemma_rows_spaced(plan.order, plan.layers, plan.heights, title, plan.rects, v, w);
        },
        DiagramKind::Relationship => {
            let center = layout::hub(plan.order, endpoints, plan.order.len()) as int;
            let groups = layout::relation_groups(endpoints, center, diagram.nodes@.len());
            lemma_plan_listed(diagram, endpoints, plan, canvas, groups);
            let at = layout::law_hub_has_greatest_degree(
                plan.order,
                endpoints,
                plan.order.len(),
            );
            assert(plan.order[at] < groups.len());
            lemma_relations_spaced(
                plan.order,
                endpoints,
                plan.heights,
                center,
                title,
                plan.rects,
                v,
                w,
            );
        },
    }
}

/// No two nodes of a diagram overlap, and none runs into a margin: between any two
/// there is at least the gap between nodes, and every node stands below the header
/// and within the margins of the canvas.
pub proof fn law_nodes_stand_apart(
    whole: Diagram,
    endpoints: Seq<(usize, usize)>,
    drawn: Layout,
    i: int,
    j: int,
)
    requires
        diagram::arranged(whole, endpoints, drawn),
        0 <= i < drawn.nodes@.len(),
        0 <= j < drawn.nodes@.len(),
    ensures
        within_margins(drawn.nodes@[i].rect, (drawn.width as int, drawn.height as int)),
        i != j ==> apart(drawn.nodes@[i].rect, drawn.nodes@[j].rect),
{
    let canvas = (drawn.width as int, drawn.height as int);
    diagram::lemma_fits(whole, endpoints);
    let plan = choose|plan: Plan| layout::follows(whole, endpoints, plan, drawn);
    lemma_plan_listed(whole, endpoints, plan, canvas, plan.layers);
    assert(layout::node_follows(whole, plan, drawn.nodes@[i], plan.order[i]));
    assert(layout::node_follows(whole, plan, drawn.nodes@[j], plan.order[j]));
    assert(plan.order[i] < plan.heights.len() && plan.order[j] < plan.heights.len());
    lemma_plan_spaced(
        whole,
        endpoints,
        plan,
        canvas,
        plan.order[i] as int,
        plan.order[j] as int,
    );
}

/// Whether an edge of a diagram leads from one node to another.
pub open spec fn leads_to(whole: Diagram, source: int, target: int) -> bool {
    exists|e: int|
        0 <= e < whole.edges@.len() && (#[trigger] whole.edges@[e]).source@
            == whole.nodes@[source].id@ && whole.edges@[e].target@ == whole.nodes@[target].id@
}

/// How many ends of edges are at a node.
pub open spec fn ends_at(whole: Diagram, v: int) -> nat {
    let id = whole.nodes@[v].id@;
    whole.edges@.filter(|edge: DiagramEdge| edge.source@ == id).len() + whole.edges@.filter(
        |edge: DiagramEdge| edge.target@ == id,
    ).len()
}

proof fn lemma_ends_at(
    whole: Diagram,
    endpoints: Seq<(usize, usize)>,
    v: int,
    count: nat,
)
    requires
        diagram::resolves(whole, endpoints),
        0 <= v < whole.nodes@.len(),
        count <= endpoints.len(),
    ensures
        ({
            let id = whole.nodes@[v].id@;
            let edges = whole.edges@.take(count as int);
            layout::degree(endpoints, v, count) == edges.filter(
                |edge: DiagramEdge| edge.source@ == id,
            ).len() + edges.filter(|edge: DiagramEdge| edge.target@ == id).len()
        }),
    decreases count,
{
    reveal(Seq::filter);
    let edges = whole.edges@.take(count as int);
    if count > 0 {
        let k = count - 1;
        lemma_ends_at(whole, endpoints, v, k as nat);
        assert(edges.drop_last() =~= whole.edges@.take(k));
        assert(edges.last() == whole.edges@[k]);
        lemma_resolved_end(whole, endpoints, k, v);
    }
}

/// An edge has an end at a node if and only if it names the node.
proof fn lemma_resolved_end(whole: Diagram, endpoints: Seq<(usize, usize)>, k: int, v: int)
    requires
        diagram::resolves(whole, endpoints),
        0 <= k < endpoints.len(),
        0 <= v < whole.nodes@.len(),
    ensures
        (endpoints[k].0 == v) == (whole.edges@[k].source@ == whole.nodes@[v].id@),
        (endpoints[k].1 == v) == (whole.edges@[k].target@ == whole.nodes@[v].id@),
{
    assert(diagram::is_node(whole.nodes@, whole.edges@[k].source@, endpoints[k].0));
    assert(diagram::is_node(whole.nodes@, whole.edges@[k].target@, endpoints[k].1));
    assert(whole.nodes@[endpoints[k].0 as int].id@ == whole.edges@[k].source@);
    assert(whole.nodes@[endpoints[k].1 as int].id@ == whole.edges@[k].target@);
}

proof fn lemma_leads_to(whole: Diagram, endpoints: Seq<(usize, usize)>, source: int, target: int)
    requires
        diagram::resolves(whole, endpoints),
        0 <= source < whole.nodes@.len(),
        0 <= target < whole.nodes@.len(),
    ensures
        layers::edge(endpoints, source, target) == leads_to(whole, source, target),
{
    if layers::edge(endpoints, source, target) {
        let e = choose|e: int|
            0 <= e < endpoints.len() && (#[trigger] endpoints[e]).0 == source && endpoints[e].1
                == target;
        lemma_resolved_end(whole, endpoints, e, source);
        lemma_resolved_end(whole, endpoints, e, target);
        assert(whole.edges@[e].source@ == whole.nodes@[source].id@);
    }
    if leads_to(whole, source, target) {
        let e = choose|e: int|
            0 <= e < whole.edges@.len() && (#[trigger] whole.edges@[e]).source@
                == whole.nodes@[source].id@ && whole.edges@[e].target@
                == whole.nodes@[target].id@;
        lemma_resolved_end(whole, endpoints, e, source);
        lemma_resolved_end(whole, endpoints, e, target);
        assert(endpoints[e].0 == source);
    }
}

/// In a relationship diagram one node is in the focus, and no other has more ends of
/// edges. Nodes with an edge to it stand to its left, other nodes with an edge from it to
/// its right, and the rest below it. No node of another diagram is in the focus.
pub proof fn law_neighbours_stand_around_the_focus(
    whole: Diagram,
    endpoints: Seq<(usize, usize)>,
    drawn: Layout,
    focus: int,
    i: int,
)
    requires
        diagram::arranged(whole, endpoints, drawn),
        0 <= focus < drawn.nodes@.len(),
        0 <= i < drawn.nodes@.len(),
        drawn.nodes@[focus].focused,
    ensures
        whole.kind == DiagramKind::Relationship,
        drawn.nodes@[i].focused ==> i == focus,
        ends_at(whole, drawn.nodes@[i].diagram_index as int) <= ends_at(
            whole,
            drawn.nodes@[focus].diagram_index as int,
        ),
        i != focus ==> {
            let own = drawn.nodes@[i].rect;
            let middle = drawn.nodes@[focus].rect;
            let v = drawn.nodes@[i].diagram_index as int;
            let c = drawn.nodes@[focus].diagram_index as int;
            if leads_to(whole, v, c) {
                own.x + own.width < middle.x
            } else if leads_to(whole, c, v) {
                middle.x + middle.width < own.x
            } else {
                middle.y + middle.height < own.y
            }
        },
{
    let canvas = (drawn.width as int, drawn.height as int);
    diagram::lemma_fits(whole, endpoints);
    let plan = choose|plan: Plan| layout::follows(whole, endpoints, plan, drawn);
    assert(layout::node_follows(whole, plan, drawn.nodes@[i], plan.order[i]));
    assert(layout::node_follows(whole, plan, drawn.nodes@[focus], plan.order[focus]));
    lemma_plan_listed(whole, endpoints, plan, canvas, plan.layers);
    let center = layout::hub(plan.order, endpoints, plan.order.len()) as int;
    let groups = layout::relation_groups(endpoints, center, whole.nodes@.len());
    let title = layout::title_width(whole);
    assert(plan.focus == Some(plan.order[focus]));
    assert(plan.order[focus] == center);
    let v = plan.order[i] as int;
    if i != focus && plan.order[i] == plan.order[focus] {
        assert(plan.order[i] != plan.order[focus]);
    }
    assert(v < plan.heights.len() && center < plan.heights.len());
    let at = layout::law_hub_has_greatest_degree(plan.order, endpoints, plan.order.len());
    assert(layout::degree(endpoints, plan.order[i] as int, endpoints.len())
        <= layout::degree(endpoints, plan.order[at] as int, endpoints.len()));
    assert(whole.edges@.take(endpoints.len() as int) =~= whole.edges@);
    lemma_ends_at(whole, endpoints, v, endpoints.len());
    lemma_ends_at(whole, endpoints, center, endpoints.len());
    if i != focus {
        lemma_plan_listed(whole, endpoints, plan, canvas, groups);
        lemma_leads_to(whole, endpoints, v, center);
        lemma_leads_to(whole, endpoints, center, v);
        let places = layout::relation_places(
            plan.order,
            groups,
            plan.heights,
            center,
            title,
        );
        assert(plan.rects[v].x == places(v).0 && plan.rects[center].x == places(center).0);
        lemma_joined_within(
            plan.order,
            groups,
            plan.heights,
            center,
            title,
            plan.rects,
            center,
        );
        if groups[v] == 3 {
            lemma_rest_within(plan.order, groups, plan.heights, center, title, plan.rects, v);
        }
    }
}

/// Exactly one node of a relationship diagram that has any is in the focus; none of
/// another diagram is.
pub proof fn law_one_node_is_in_the_focus(
    whole: Diagram,
    endpoints: Seq<(usize, usize)>,
    drawn: Layout,
) -> (focus: int)
    requires
        diagram::arranged(whole, endpoints, drawn),
        whole.nodes@.len() > 0,
    ensures
        whole.kind == DiagramKind::Relationship ==> 0 <= focus < drawn.nodes@.len()
            && drawn.nodes@[focus].focused,
        forall|i: int|
            0 <= i < drawn.nodes@.len() && (#[trigger] drawn.nodes@[i]).focused ==> whole.kind
                == DiagramKind::Relationship && i == focus,
{
    let canvas = (drawn.width as int, drawn.height as int);
    diagram::lemma_fits(whole, endpoints);
    let plan = choose|plan: Plan| layout::follows(whole, endpoints, plan, drawn);
    lemma_plan_listed(whole, endpoints, plan, canvas, plan.layers);
    assert(plan.order.len() > 0);
    let at = layout::law_hub_has_greatest_degree(plan.order, endpoints, plan.order.len());
    assert(layout::node_follows(whole, plan, drawn.nodes@[at], plan.order[at]));
    assert forall|i: int|
        0 <= i < drawn.nodes@.len() && (#[trigger] drawn.nodes@[i]).focused implies whole.kind
        == DiagramKind::Relationship && i == at by {
        assert(layout::node_follows(whole, plan, drawn.nodes@[i], plan.order[i]));
        assert(whole.kind == DiagramKind::Relationship);
        law_neighbours_stand_around_the_focus(whole, endpoints, drawn, i, at);
    }
    at
}

} // verus!
